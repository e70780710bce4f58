//! The storage adapter: snapshot ids to encoded diff blobs.
//!
//! A store maps a snapshot id (its 8 big-endian bytes serve as the
//! key) to one encoded `StateDiff` blob.  `Data` is the abstract
//! capability; `MemoryStore` is the in-memory implementation.

use vstd::prelude::*;
use std::collections::HashMap;
use crate::codec::{StateDiff, spec_encode, decodes_to, encode, decode};
use crate::error::Error;

verus! {

broadcast use vstd::std_specs::hash::group_hash_axioms;

/// Abstract capability of a snapshot-diff store.  `stored` is the
/// store's contents as a map from snapshot id to the blob kept under
/// that id's key; a failing underlying key-value engine may surface
/// `StoreFailure` from either operation, and a save that fails leaves
/// the contents unchanged.
pub trait Data: Send + Sync {
    /// The blobs currently held, keyed by snapshot id.
    spec fn stored(&self) -> Map<u64, Seq<u8>>;

    /// Loads and decodes the diff saved under `shortstatehash`.
    /// Succeeds exactly on the decode of the stored blob; fails with
    /// `MissingEntry` only when no blob is stored under that id, and
    /// with `Malformed` only when the stored blob cannot hold the
    /// 8-byte parent field.
    fn get_statediff(&self, shortstatehash: u64) -> (r: Result<StateDiff, Error>)
        ensures
            match r {
                Ok(diff) => self.stored().contains_key(shortstatehash)
                    && self.stored()[shortstatehash].len() >= 8
                    && decodes_to(self.stored()[shortstatehash], diff),
                Err(Error::MissingEntry) => !self.stored().contains_key(shortstatehash),
                Err(Error::Malformed) => self.stored().contains_key(shortstatehash)
                    && self.stored()[shortstatehash].len() < 8,
                Err(Error::StoreFailure) => true,
            },
    ;

    /// Encodes `diff` and saves it under `shortstatehash`, overwriting
    /// any blob already kept under that id.
    fn save_statediff(&mut self, shortstatehash: u64, diff: StateDiff) -> (r: Result<(), Error>)
        requires
            diff.wf(),
        ensures
            match r {
                Ok(_) => final(self).stored() == old(self).stored().insert(
                    shortstatehash,
                    spec_encode(diff),
                ),
                Err(e) => e == Error::StoreFailure && final(self).stored() == old(self).stored(),
            },
    ;
}

/// An in-memory snapshot-diff store.
pub struct MemoryStore {
    entries: HashMap<u64, Vec<u8>>,
}

impl MemoryStore {
    /// The held blobs, keyed by snapshot id.
    pub closed spec fn contents(&self) -> Map<u64, Seq<u8>> {
        self.entries@.map_values(|v: Vec<u8>| v@)
    }

    /// An empty store.
    pub fn new() -> (s: MemoryStore)
        ensures
            s.stored() == Map::<u64, Seq<u8>>::empty(),
    {
        let s = MemoryStore { entries: HashMap::new() };
        proof {
            assert(s.stored() =~= Map::<u64, Seq<u8>>::empty());
        }
        s
    }
}

impl Data for MemoryStore {
    open spec fn stored(&self) -> Map<u64, Seq<u8>> {
        self.contents()
    }

    /// In memory nothing can fail underneath: the result is pinned by
    /// the contents alone, and `StoreFailure` never occurs.
    fn get_statediff(&self, shortstatehash: u64) -> (r: Result<StateDiff, Error>)
        ensures
            !self.stored().contains_key(shortstatehash) ==> r === Err(Error::MissingEntry),
            self.stored().contains_key(shortstatehash) && self.stored()[shortstatehash].len() < 8
                ==> r === Err(Error::Malformed),
            self.stored().contains_key(shortstatehash) && self.stored()[shortstatehash].len() >= 8
                ==> r is Ok,
    {
        match self.entries.get(&shortstatehash) {
            Some(value) => decode(value),
            None => Err(Error::MissingEntry),
        }
    }

    /// In memory a save always succeeds.
    fn save_statediff(&mut self, shortstatehash: u64, diff: StateDiff) -> (r: Result<(), Error>)
        ensures
            r is Ok,
    {
        let value = encode(&diff);
        let ghost bytes = value@;
        self.entries.insert(shortstatehash, value);
        proof {
            assert(self.stored() =~= old(self).stored().insert(shortstatehash, bytes));
        }
        Ok(())
    }
}

} // verus!
