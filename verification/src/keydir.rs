//! The in-memory key directory: a concurrent-capable map from each live key
//! to the log position of its most recent `Put` record.
//!
//! The map itself is a lock-free skip list from an outside crate; its
//! contents are named by [`skiplist_contents`], and every method the store
//! calls is a thin trusted wrapper whose contract speaks over that name.

use vstd::prelude::*;

verus! {

/// The location of one record: its generation, its byte offset within that
/// generation's file, and its encoded length.
#[derive(Debug, Clone, Copy, PartialEq, Eq, Structural)]
pub struct LogPos {
    pub gen: u64,
    pub pos: usize,
    pub len: usize,
}

#[verifier::external_type_specification]
#[verifier::external_body]
#[verifier::reject_recursive_types(K)]
#[verifier::reject_recursive_types(V)]
pub struct ExSkipMap<K, V>(crossbeam_skiplist::SkipMap<K, V>);

/// The key-to-position mapping a skip list holds.
pub uninterp spec fn skiplist_contents(
    m: crossbeam_skiplist::SkipMap<Vec<u8>, LogPos>,
) -> Map<Seq<u8>, LogPos>;

/// The key directory. Lookups, insertions and removals go through the skip
/// list; what each one does is stated over [`skiplist_contents`].
pub struct KeyDir {
    pub map: crossbeam_skiplist::SkipMap<Vec<u8>, LogPos>,
}

impl View for KeyDir {
    type V = Map<Seq<u8>, LogPos>;

    open spec fn view(&self) -> Map<Seq<u8>, LogPos> {
        skiplist_contents(self.map)
    }
}

impl KeyDir {
    /// Relies on crossbeam_skiplist::SkipMap::new: a fresh skip list holds no
    /// entries.
    #[verifier::external_body]
    pub fn new() -> (r: KeyDir)
        ensures
            forall|k: Seq<u8>| !skiplist_contents(r.map).contains_key(k),
    {
        KeyDir { map: crossbeam_skiplist::SkipMap::new() }
    }

    /// Relies on crossbeam_skiplist::SkipMap::get: returns the entry whose
    /// key equals `key`, or `None` when there is none.
    #[verifier::external_body]
    pub fn get(&self, key: &[u8]) -> (r: Option<LogPos>)
        ensures
            r matches Some(p) ==> skiplist_contents(self.map).contains_key(key@) && p
                == skiplist_contents(self.map)[key@],
            r is None ==> !skiplist_contents(self.map).contains_key(key@),
    {
        self.map.get(key).map(|e| *e.value())
    }

    /// Relies on crossbeam_skiplist::SkipMap::insert: inserts the pair,
    /// replacing any existing entry with an equal key.
    #[verifier::external_body]
    pub fn insert(&mut self, key: Vec<u8>, pos: LogPos)
        ensures
            skiplist_contents(final(self).map) == skiplist_contents(old(self).map).insert(
                key@,
                pos,
            ),
    {
        self.map.insert(key, pos);
    }

    /// Relies on crossbeam_skiplist::SkipMap::remove: removes and returns the
    /// entry whose key equals `key`, or `None` when there is none.
    #[verifier::external_body]
    pub fn remove(&mut self, key: &[u8]) -> (r: Option<LogPos>)
        ensures
            skiplist_contents(final(self).map) == skiplist_contents(old(self).map).remove(key@),
            r matches Some(p) ==> skiplist_contents(old(self).map).contains_key(key@) && p
                == skiplist_contents(old(self).map)[key@],
            r is None ==> !skiplist_contents(old(self).map).contains_key(key@),
    {
        self.map.remove(key).map(|e| *e.value())
    }
}

} // verus!
