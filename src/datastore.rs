//! A store of client commitments, by client id, that sums them.
use vstd::prelude::*;
use std::collections::HashMap;
use crate::constants::SPLIT_LEN;
use crate::group::{md, lemma_md_add, lemma_md_small, lemma_log_bounds};
use crate::replicated::ReplicaCommitment;

verus! {

broadcast use vstd::std_specs::hash::group_hash_axioms;

/// Sum over the clients `uids` of the logs of their commitments at position
/// `j`, unreduced.
pub open spec fn stored_sum(uids: Seq<u64>, coms: Map<u64, ReplicaCommitment>, j: int) -> int
    decreases uids.len(),
{
    if uids.len() == 0 {
        0
    } else {
        stored_sum(uids.drop_last(), coms, j) + coms[uids.last()].com@[j].log()
    }
}

pub struct MemoryCommitmentStore {
    pub coms: HashMap<u64, ReplicaCommitment>,
    pub uids: Vec<u64>,
}

impl MemoryCommitmentStore {
    /// The ids are the keys, each once, in order of first storing; every
    /// stored commitment is made of group elements.
    pub open spec fn wf(&self) -> bool {
        &&& forall|a: int, b: int| 0 <= a < b < self.uids.len() ==> self.uids@[a] != self.uids@[b]
        &&& forall|k: u64| #[trigger] self.coms@.contains_key(k) <==> self.uids@.contains(k)
        &&& forall|k: u64| #[trigger] self.coms@.contains_key(k) ==> self.coms@[k].wf()
    }

    pub fn new() -> (r: Self)
        ensures
            r.wf(),
            r.coms@ == Map::<u64, ReplicaCommitment>::empty(),
    {
        MemoryCommitmentStore { coms: HashMap::new(), uids: Vec::new() }
    }

    /// The ids of the stored commitments, in order of first storing.
    pub fn get_all_uids(&self) -> (r: Vec<u64>)
        ensures
            r@ == self.uids@,
    {
        crate::prover::copy_ids(&self.uids)
    }

    /// Stores `com` as client `uid`'s, replacing any earlier one.
    pub fn put(&mut self, uid: u64, com: ReplicaCommitment)
        requires
            old(self).wf(),
            com.wf(),
        ensures
            final(self).wf(),
            final(self).coms@ == old(self).coms@.insert(uid, com),
    {
        let known = self.coms.contains_key(&uid);
        self.coms.insert(uid, com);
        if !known {
            let ghost before = self.uids@;
            self.uids.push(uid);
            proof {
                assert forall|k: u64| #[trigger] self.coms@.contains_key(k) <==> self.uids@.contains(k) by {
                    if k == uid {
                        assert(self.uids@[before.len() as int] == uid);
                    } else if before.contains(k) {
                        let j = choose|j: int| 0 <= j < before.len() && before[j] == k;
                        assert(self.uids@[j] == k);
                    } else if self.uids@.contains(k) {
                        let j = choose|j: int| 0 <= j < self.uids.len() && self.uids@[j] == k;
                        assert(before[j] == k);
                    }
                }
            }
        }
    }

    /// The position-wise sum of the stored commitments.
    pub fn sum(&self) -> (r: ReplicaCommitment)
        requires
            self.wf(),
        ensures
            r.wf(),
            forall|j: int|
                0 <= j < SPLIT_LEN ==> (#[trigger] r.com@[j]).log() == md(stored_sum(self.uids@, self.coms@, j)),
    {
        let mut sum = ReplicaCommitment::new_zero();
        let mut i: usize = 0;
        proof {
            lemma_md_small(0);
        }
        while i < self.uids.len()
            invariant
                self.wf(),
                i <= self.uids.len(),
                sum.wf(),
                forall|j: int|
                    0 <= j < SPLIT_LEN ==> (#[trigger] sum.com@[j]).log() == md(
                        stored_sum(self.uids@.subrange(0, i as int), self.coms@, j),
                    ),
            decreases self.uids.len() - i,
        {
            let uid = self.uids[i];
            proof {
                assert(self.uids@.contains(uid));
            }
            let com = self.coms.get(&uid).unwrap();
            let next = sum.add(com.copy());
            proof {
                let pre = self.uids@.subrange(0, i as int);
                assert(self.uids@.subrange(0, i + 1).drop_last() =~= pre);
                assert forall|j: int| 0 <= j < SPLIT_LEN implies (#[trigger] next.com@[j]).log() == md(
                    stored_sum(self.uids@.subrange(0, i + 1), self.coms@, j),
                ) by {
                    lemma_md_add(stored_sum(pre, self.coms@, j), com.com@[j].log());
                    lemma_log_bounds(com.com@[j]);
                }
            }
            sum = next;
            i = i + 1;
        }
        assert(self.uids@.subrange(0, self.uids.len() as int) =~= self.uids@);
        sum
    }
}

} // verus!
