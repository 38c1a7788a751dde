//! A prover's store of the shares it received, by client id.
use vstd::prelude::*;
use std::collections::HashMap;
use crate::replicated::ReplicaShare;

verus! {

broadcast use vstd::std_specs::hash::group_hash_axioms;

/// A prover's store of received shares: what it holds, storing, and
/// looking up.
pub trait ShareStore {
    /// The stored shares, by client id.
    spec fn view(&self) -> Map<u64, ReplicaShare>;

    /// Stores `share` as client `uid`'s, replacing any earlier one.
    fn put(&mut self, uid: u64, share: ReplicaShare)
        ensures
            final(self).view() == old(self).view().insert(uid, share),
    ;

    /// The share stored for client `uid`.
    fn get(&self, uid: u64) -> (r: Option<&ReplicaShare>)
        ensures
            r.is_some() == self.view().contains_key(uid),
            r.is_some() ==> *r.unwrap() == self.view()[uid],
    ;
}

/// Shares kept in memory.
pub struct MemoryShareStore {
    shares: HashMap<u64, ReplicaShare>,
}

impl MemoryShareStore {
    pub fn new() -> (r: Self)
        ensures
            r.view() == Map::<u64, ReplicaShare>::empty(),
    {
        MemoryShareStore { shares: HashMap::new() }
    }
}

impl ShareStore for MemoryShareStore {
    closed spec fn view(&self) -> Map<u64, ReplicaShare> {
        self.shares@
    }

    fn put(&mut self, uid: u64, share: ReplicaShare) {
        self.shares.insert(uid, share);
    }

    fn get(&self, uid: u64) -> (r: Option<&ReplicaShare>) {
        self.shares.get(&uid)
    }
}

impl Default for MemoryShareStore {
    fn default() -> (r: Self)
        ensures
            r.view() == Map::<u64, ReplicaShare>::empty(),
    {
        MemoryShareStore::new()
    }
}

} // verus!
