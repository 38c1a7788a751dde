//! The bulletin board: one append-only entry per client, with its
//! commitment, its Σ-OR proof, the provers' acknowledgements and the shares
//! it revealed.
use vstd::prelude::*;
use std::collections::HashMap;
use crate::constants::PROVER_NUM;
use crate::commitment::CommitBase;
use crate::group::{Point, md, lemma_point_eq};
use crate::public_parameters::PublicParameters;
use crate::replicated::{ReplicaCommitment, ReplicaShare, logs_sum};
use crate::sigma_or::{ProofStruct, proof_accepts};
use crate::sign::{MySignature, verify_sig, sig_valid};

verus! {

broadcast use vstd::std_specs::hash::group_hash_axioms;

/// The bulletin entry of one client.
pub struct User {
    pub id: u64,
    pub commitment: ReplicaCommitment,
    pub sigma_proof: ProofStruct,
    pub signatures: Vec<Option<MySignature>>,
    pub share: Vec<Option<ReplicaShare>>,
}

impl User {
    /// One signature slot and one share slot per prover, and a commitment
    /// of group elements.
    pub open spec fn wf(&self) -> bool {
        &&& self.signatures.len() == PROVER_NUM
        &&& self.share.len() == PROVER_NUM
        &&& self.commitment.wf()
    }

    /// Slot `i` holds prover `i`'s valid acknowledgement of the commitment.
    pub open spec fn slot_signed(&self, pks: Seq<[u8; 32]>, i: int) -> bool {
        match self.signatures@[i] {
            Some(sig) => sig_valid(self.commitment.com@, pks[i]@, sig.0@),
            None => false,
        }
    }

    /// Slot `i` holds prover `i`'s share, and it opens the commitment.
    pub open spec fn slot_revealed(&self, base: CommitBase, i: int) -> bool {
        match self.share@[i] {
            Some(sh) => sh.wf() && sh.ind == i && sh.opens(base, self.commitment),
            None => false,
        }
    }

    /// Every prover's slot holds a valid acknowledgement or a valid share.
    pub open spec fn slots_complete(&self, pks: Seq<[u8; 32]>, base: CommitBase) -> bool {
        forall|i: int|
            0 <= i < PROVER_NUM ==> #[trigger] self.slot_signed(pks, i) || self.slot_revealed(
                base,
                i,
            )
    }

    /// The Σ-OR proof passes against the sum of the commitments.
    pub open spec fn proof_valid(&self, base: CommitBase) -> bool {
        exists|c: Point|
            c.wf() && c.log() == md(logs_sum(self.commitment.com@)) && #[trigger] proof_accepts(
                base,
                c,
                self.sigma_proof,
            )
    }

    /// The entry is valid: the proof passes and every slot is complete.
    pub open spec fn entry_valid(&self, pks: Seq<[u8; 32]>, base: CommitBase) -> bool {
        self.proof_valid(base) && self.slots_complete(pks, base)
    }

    /// For each prover, whether its slot holds a valid acknowledgement.
    pub fn check_signature(&self, pks: &Vec<[u8; 32]>) -> (r: Vec<bool>)
        requires
            self.wf(),
            pks.len() == PROVER_NUM,
        ensures
            r.len() == PROVER_NUM,
            forall|i: int| 0 <= i < PROVER_NUM ==> r@[i] == self.slot_signed(pks@, i),
    {
        let mut res: Vec<bool> = Vec::new();
        let mut i: usize = 0;
        while i < PROVER_NUM
            invariant
                self.wf(),
                pks.len() == PROVER_NUM,
                i <= PROVER_NUM,
                res.len() == i,
                forall|k: int| 0 <= k < i ==> res@[k] == self.slot_signed(pks@, k),
            decreases PROVER_NUM - i,
        {
            let ok = match &self.signatures[i] {
                Some(sig) => verify_sig(&self.commitment, &pks[i], sig),
                None => false,
            };
            res.push(ok);
            i = i + 1;
        }
        res
    }

    /// For each prover, whether its slot holds a share that opens the
    /// commitment.
    pub fn check_share(&self, pp: &PublicParameters) -> (r: Vec<bool>)
        requires
            self.wf(),
            pp.wf(),
        ensures
            r.len() == PROVER_NUM,
            forall|i: int| 0 <= i < PROVER_NUM ==> r@[i] == self.slot_revealed(pp.commit_base, i),
    {
        let mut res: Vec<bool> = Vec::new();
        let mut i: usize = 0;
        while i < PROVER_NUM
            invariant
                self.wf(),
                pp.wf(),
                i <= PROVER_NUM,
                res.len() == i,
                forall|k: int| 0 <= k < i ==> res@[k] == self.slot_revealed(pp.commit_base, k),
            decreases PROVER_NUM - i,
        {
            let ok = match &self.share[i] {
                Some(sh) => {
                    if sh.is_wf() && sh.ind == i {
                        sh.check_com(pp.get_commit_base(), self.commitment.copy())
                    } else {
                        false
                    }
                },
                None => false,
            };
            res.push(ok);
            i = i + 1;
        }
        res
    }

    /// Whether the Σ-OR proof passes against the sum of the commitments.
    pub fn check_proof(&self, pp: &PublicParameters) -> (r: bool)
        requires
            self.wf(),
            pp.wf(),
        ensures
            r == self.proof_valid(pp.commit_base),
    {
        let reconcom = self.commitment.get_sum();
        let r = self.sigma_proof.verify(pp.get_commit_base(), reconcom);
        proof {
            if !r {
                assert forall|c: Point|
                    c.wf() && c.log() == md(logs_sum(self.commitment.com@)) implies !#[trigger] proof_accepts(
                        pp.commit_base,
                        c,
                        self.sigma_proof,
                    ) by {
                    lemma_point_eq(c, reconcom);
                }
            }
        }
        r
    }

    /// Whether the entry is valid.
    pub fn check_whole(&self, pks: &Vec<[u8; 32]>, pp: &PublicParameters) -> (r: bool)
        requires
            self.wf(),
            pks.len() == PROVER_NUM,
            pp.wf(),
        ensures
            r == self.entry_valid(pks@, pp.commit_base),
    {
        if !self.check_proof(pp) {
            return false;
        }
        let shares = self.check_share(pp);
        let sigs = self.check_signature(pks);
        let mut i: usize = 0;
        while i < PROVER_NUM
            invariant
                self.wf(),
                shares.len() == PROVER_NUM,
                sigs.len() == PROVER_NUM,
                forall|k: int| 0 <= k < PROVER_NUM ==> shares@[k] == self.slot_revealed(pp.commit_base, k),
                forall|k: int| 0 <= k < PROVER_NUM ==> sigs@[k] == self.slot_signed(pks@, k),
                i <= PROVER_NUM,
                forall|k: int|
                    0 <= k < i ==> #[trigger] self.slot_signed(pks@, k) || self.slot_revealed(
                        pp.commit_base,
                        k,
                    ),
            decreases PROVER_NUM - i,
        {
            if !shares[i] && !sigs[i] {
                return false;
            }
            i = i + 1;
        }
        true
    }

    /// The check of a prover that keeps its own shares: an entry that this
    /// prover acknowledged is trusted without its proof; otherwise the proof
    /// must pass and the share revealed to this prover is handed back.
    pub fn check_whole_lazy(&self, pks: &Vec<[u8; 32]>, pp: &PublicParameters, proverid: usize) -> (r:
        (bool, Option<ReplicaShare>))
        requires
            self.wf(),
            pks.len() == PROVER_NUM,
            pp.wf(),
            proverid < PROVER_NUM,
        ensures
            r.0 == (self.slots_complete(pks@, pp.commit_base) && (self.slot_signed(
                pks@,
                proverid as int,
            ) || self.proof_valid(pp.commit_base))),
            r.1.is_some() == (r.0 && !self.slot_signed(pks@, proverid as int)),
            r.1.is_some() ==> self.slot_revealed(pp.commit_base, proverid as int) && r.1.unwrap().ind
                == proverid && r.1.unwrap().share@ == self.share@[proverid as int].unwrap().share@
                && r.1.unwrap().blindings@ == self.share@[proverid as int].unwrap().blindings@,
    {
        let shares = self.check_share(pp);
        let sigs = self.check_signature(pks);
        let mut i: usize = 0;
        while i < PROVER_NUM
            invariant
                self.wf(),
                shares.len() == PROVER_NUM,
                sigs.len() == PROVER_NUM,
                forall|k: int| 0 <= k < PROVER_NUM ==> shares@[k] == self.slot_revealed(pp.commit_base, k),
                forall|k: int| 0 <= k < PROVER_NUM ==> sigs@[k] == self.slot_signed(pks@, k),
                i <= PROVER_NUM,
                forall|k: int|
                    0 <= k < i ==> #[trigger] self.slot_signed(pks@, k) || self.slot_revealed(
                        pp.commit_base,
                        k,
                    ),
            decreases PROVER_NUM - i,
        {
            if !shares[i] && !sigs[i] {
                return (false, None);
            }
            i = i + 1;
        }
        if sigs[proverid] {
            return (true, None);
        }
        if !self.check_proof(pp) {
            return (false, None);
        }
        assert(self.slot_revealed(pp.commit_base, proverid as int));
        match &self.share[proverid] {
            Some(sh) => (true, Some(sh.copy())),
            None => (false, None),
        }
    }
}

/// The ids of `ids` whose entries in `users` are valid, in order.
pub open spec fn valid_ids(
    ids: Seq<u64>,
    users: Map<u64, User>,
    pks: Seq<[u8; 32]>,
    base: CommitBase,
) -> Seq<u64>
    decreases ids.len(),
{
    if ids.len() == 0 {
        Seq::empty()
    } else {
        let pre = valid_ids(ids.drop_last(), users, pks, base);
        if users[ids.last()].entry_valid(pks, base) {
            pre.push(ids.last())
        } else {
            pre
        }
    }
}

/// Every valid id is one of `ids`.
pub proof fn lemma_valid_ids_in(ids: Seq<u64>, users: Map<u64, User>, pks: Seq<[u8; 32]>, base: CommitBase)
    ensures
        forall|k: int|
            0 <= k < valid_ids(ids, users, pks, base).len() ==> ids.contains(
                #[trigger] valid_ids(ids, users, pks, base)[k],
            ),
    decreases ids.len(),
{
    if ids.len() > 0 {
        lemma_valid_ids_in(ids.drop_last(), users, pks, base);
        let pre = valid_ids(ids.drop_last(), users, pks, base);
        assert forall|k: int|
            0 <= k < valid_ids(ids, users, pks, base).len() implies ids.contains(
                #[trigger] valid_ids(ids, users, pks, base)[k],
            ) by {
            if k < pre.len() {
                let x = pre[k];
                assert(ids.drop_last().contains(x));
                let j = choose|j: int| 0 <= j < ids.drop_last().len() && ids.drop_last()[j] == x;
                assert(ids[j] == x);
            } else {
                assert(ids[ids.len() - 1] == ids.last());
            }
        }
    }
}

/// An entry just posted: no acknowledgement and no share yet.
pub open spec fn fresh_user(u: User, id: u64, commitment: ReplicaCommitment, proof: ProofStruct) -> bool {
    &&& u.id == id
    &&& u.commitment == commitment
    &&& u.sigma_proof == proof
    &&& u.signatures.len() == PROVER_NUM
    &&& u.share.len() == PROVER_NUM
    &&& forall|i: int| 0 <= i < PROVER_NUM ==> (#[trigger] u.signatures@[i]).is_none()
    &&& forall|i: int| 0 <= i < PROVER_NUM ==> (#[trigger] u.share@[i]).is_none()
}

/// The ids are increasing and are exactly the keys; each entry is well
/// formed and carries its key as id.
pub open spec fn board_ok(users: Map<u64, User>, ids: Seq<u64>) -> bool {
        &&& forall|a: int, b: int| 0 <= a < b < ids.len() ==> ids[a] < ids[b]
        &&& forall|k: u64| #[trigger] users.contains_key(k) <==> ids.contains(k)
        &&& forall|k: u64|
            #[trigger] users.contains_key(k) ==> users[k].wf() && users[k].id == k
    }

/// The bulletin board: entries by client id and the ids in increasing
/// order, written once per slot.
pub trait UserStore {
    /// The entries, by client id.
    spec fn users(&self) -> Map<u64, User>;

    /// The client ids, in increasing order.
    spec fn ids(&self) -> Seq<u64>;

    /// Posts a new entry; fails when `id` already has one or the commitment
    /// is not made of group elements.
    fn new_user(&mut self, id: u64, commitment: ReplicaCommitment, sigma_proof: ProofStruct) -> (r:
        bool)
        requires
            board_ok(old(self).users(), old(self).ids()),
        ensures
            board_ok(final(self).users(), final(self).ids()),
            r == (!old(self).users().contains_key(id) && commitment.wf()),
            r ==> final(self).users().dom() == old(self).users().dom().insert(id) && fresh_user(
                final(self).users()[id],
                id,
                commitment,
                sigma_proof,
            ) && forall|k: u64| k != id && #[trigger] old(self).users().contains_key(k) ==> final(self).users()[k]
                == old(self).users()[k],
            !r ==> final(self).users() == old(self).users() && final(self).ids() == old(self).ids(),
    ;

    /// The entry of client `id`.
    fn get_user(&self, id: u64) -> (r: Option<&User>)
        ensures
            r.is_some() == self.users().contains_key(id),
            r.is_some() ==> *r.unwrap() == self.users()[id],
    ;

    /// The commitment and proof of client `id`.
    fn get_user_commitment_proof(&self, id: u64) -> (r: Option<(ReplicaCommitment, ProofStruct)>)
        ensures
            r.is_some() == self.users().contains_key(id),
            r.is_some() ==> r.unwrap().0.com@ == self.users()[id].commitment.com@ && r.unwrap().1
                == self.users()[id].sigma_proof,
    ;

    /// Records prover `proverid`'s acknowledgement on client `id`'s entry.
    /// Fails when the prover is out of range, the entry is missing or the
    /// slot is already filled.
    fn sig_to_user(&mut self, id: u64, sig: MySignature, proverid: usize) -> (r: bool)
        requires
            board_ok(old(self).users(), old(self).ids()),
        ensures
            board_ok(final(self).users(), final(self).ids()),
            final(self).ids() == old(self).ids(),
            r == (proverid < PROVER_NUM && old(self).users().contains_key(id) && old(
                self,
            ).users()[id].signatures@[proverid as int].is_none()),
            r ==> final(self).users() == old(self).users().insert(
                id,
                User {
                    signatures: final(self).users()[id].signatures,
                    ..old(self).users()[id]
                },
            ) && final(self).users()[id].signatures@ == old(self).users()[id].signatures@.update(
                proverid as int,
                Some(sig),
            ),
            !r ==> final(self).users() == old(self).users(),
    ;

    /// Records the share that client `id` revealed for prover `proverid`.
    /// Fails when the prover is out of range, the entry is missing or the
    /// slot is already filled.
    fn upload_share(&mut self, id: u64, share: ReplicaShare, proverid: usize) -> (r: bool)
        requires
            board_ok(old(self).users(), old(self).ids()),
        ensures
            board_ok(final(self).users(), final(self).ids()),
            final(self).ids() == old(self).ids(),
            r == (proverid < PROVER_NUM && old(self).users().contains_key(id) && old(
                self,
            ).users()[id].share@[proverid as int].is_none()),
            r ==> final(self).users() == old(self).users().insert(
                id,
                User { share: final(self).users()[id].share, ..old(self).users()[id] },
            ) && final(self).users()[id].share@ == old(self).users()[id].share@.update(
                proverid as int,
                Some(share),
            ),
            !r ==> final(self).users() == old(self).users(),
    ;

    /// The client ids, in increasing order.
    fn iter_all_users(&self) -> (r: &Vec<u64>)
        ensures
            r@ == self.ids(),
    ;

    /// The ids of the valid entries, in increasing order.
    fn check_all_users(&self, pks: &Vec<[u8; 32]>, pp: &PublicParameters) -> (r: Vec<u64>)
        requires
            board_ok(self.users(), self.ids()),
            pks.len() == PROVER_NUM,
            pp.wf(),
        ensures
            r@ == valid_ids(self.ids(), self.users(), pks@, pp.commit_base),
    ;
}

/// The in-memory bulletin board.
pub struct MemoryUserStore {
    pub users: HashMap<u64, User>,
    pub ids: Vec<u64>,
}

impl MemoryUserStore {
    pub fn new() -> (r: Self)
        ensures
            board_ok(r.users(), r.ids()),
            r.users() == Map::<u64, User>::empty(),
    {
        MemoryUserStore { users: HashMap::new(), ids: Vec::new() }
    }
}

impl UserStore for MemoryUserStore {
    open spec fn users(&self) -> Map<u64, User> {
        self.users@
    }

    open spec fn ids(&self) -> Seq<u64> {
        self.ids@
    }

    fn new_user(&mut self, id: u64, commitment: ReplicaCommitment, sigma_proof: ProofStruct) -> (r:
        bool)
    {
        if self.users.contains_key(&id) || !commitment.is_valid() {
            return false;
        }
        let mut signatures: Vec<Option<MySignature>> = Vec::new();
        let mut share: Vec<Option<ReplicaShare>> = Vec::new();
        let mut i: usize = 0;
        while i < PROVER_NUM
            invariant
                i <= PROVER_NUM,
                signatures.len() == i,
                share.len() == i,
                forall|k: int| 0 <= k < i ==> (#[trigger] signatures@[k]).is_none(),
                forall|k: int| 0 <= k < i ==> (#[trigger] share@[k]).is_none(),
            decreases PROVER_NUM - i,
        {
            signatures.push(None);
            share.push(None);
            i = i + 1;
        }
        let user = User { id, commitment, sigma_proof, signatures, share };
        // keep the ids increasing
        let mut pos: usize = 0;
        while pos < self.ids.len() && self.ids[pos] < id
            invariant
                pos <= self.ids.len(),
                forall|a: int| 0 <= a < pos ==> self.ids@[a] < id,
            decreases self.ids.len() - pos,
        {
            pos = pos + 1;
        }
        proof {
            assert(!self.ids@.contains(id));
            if pos < self.ids.len() {
                assert(self.ids@[pos as int] != id);
            }
        }
        let ghost old_ids = self.ids@;
        self.ids.insert(pos, id);
        self.users.insert(id, user);
        proof {
            assert(self.ids@ == old_ids.insert(pos as int, id));
            assert forall|a: int, b: int| 0 <= a < b < self.ids.len() implies self.ids@[a]
                < self.ids@[b] by {
                if b < pos {
                } else if b == pos {
                } else if a < pos {
                    assert(old_ids[b - 1] >= id) by {
                        if pos < old_ids.len() {
                            assert(old_ids[pos as int] > id);
                        }
                    }
                } else if a == pos {
                    assert(old_ids[pos as int] > id);
                } else {
                }
            }
            assert forall|k: u64| #[trigger] self.users@.contains_key(k) <==> self.ids@.contains(k) by {
                if k == id {
                    assert(self.ids@[pos as int] == id);
                } else {
                    if old_ids.contains(k) {
                        let j = choose|j: int| 0 <= j < old_ids.len() && old_ids[j] == k;
                        if j < pos {
                            assert(self.ids@[j] == k);
                        } else {
                            assert(self.ids@[j + 1] == k);
                        }
                    }
                    if self.ids@.contains(k) {
                        let j = choose|j: int| 0 <= j < self.ids.len() && self.ids@[j] == k;
                        if j < pos {
                            assert(old_ids[j] == k);
                        } else {
                            assert(old_ids[j - 1] == k);
                        }
                    }
                }
            }
            assert(self.users@.dom() =~= old(self).users@.dom().insert(id));
        }
        true
    }

    fn get_user(&self, id: u64) -> (r: Option<&User>)
    {
        self.users.get(&id)
    }

    fn get_user_commitment_proof(&self, id: u64) -> (r: Option<(ReplicaCommitment, ProofStruct)>)
    {
        match self.users.get(&id) {
            Some(user) => Some((user.commitment.copy(), user.sigma_proof)),
            None => None,
        }
    }

    fn sig_to_user(&mut self, id: u64, sig: MySignature, proverid: usize) -> (r: bool)
    {
        if proverid >= PROVER_NUM {
            return false;
        }
        match self.users.remove(&id) {
            Some(mut user) => {
                if user.signatures[proverid].is_some() {
                    self.users.insert(id, user);
                    proof {
                        assert(self.users@ =~= old(self).users@);
                    }
                    return false;
                }
                user.signatures.set(proverid, Some(sig));
                self.users.insert(id, user);
                proof {
                    assert(self.users@ =~= old(self).users@.insert(
                        id,
                        User { signatures: self.users@[id].signatures, ..old(self).users@[id] },
                    ));
                }
                true
            },
            None => {
                proof {
                    assert(self.users@ =~= old(self).users@);
                }
                false
            },
        }
    }

    fn upload_share(&mut self, id: u64, share: ReplicaShare, proverid: usize) -> (r: bool)
    {
        if proverid >= PROVER_NUM {
            return false;
        }
        match self.users.remove(&id) {
            Some(mut user) => {
                if user.share[proverid].is_some() {
                    self.users.insert(id, user);
                    proof {
                        assert(self.users@ =~= old(self).users@);
                    }
                    return false;
                }
                user.share.set(proverid, Some(share));
                self.users.insert(id, user);
                proof {
                    assert(self.users@ =~= old(self).users@.insert(
                        id,
                        User { share: self.users@[id].share, ..old(self).users@[id] },
                    ));
                }
                true
            },
            None => {
                proof {
                    assert(self.users@ =~= old(self).users@);
                }
                false
            },
        }
    }

    fn iter_all_users(&self) -> (r: &Vec<u64>)
    {
        &self.ids
    }

    fn check_all_users(&self, pks: &Vec<[u8; 32]>, pp: &PublicParameters) -> (r: Vec<u64>)
    {
        let mut valid_user_ids: Vec<u64> = Vec::new();
        let mut i: usize = 0;
        while i < self.ids.len()
            invariant
                board_ok(self.users(), self.ids()),
                pks.len() == PROVER_NUM,
                pp.wf(),
                i <= self.ids.len(),
                valid_user_ids@ == valid_ids(self.ids@.subrange(0, i as int), self.users@, pks@, pp.commit_base),
            decreases self.ids.len() - i,
        {
            let id = self.ids[i];
            proof {
                assert(self.ids@.contains(id));
                assert(self.ids@.subrange(0, i + 1).drop_last() =~= self.ids@.subrange(0, i as int));
            }
            let user = self.users.get(&id).unwrap();
            if user.check_whole(pks, pp) {
                valid_user_ids.push(id);
            }
            i = i + 1;
        }
        assert(self.ids@.subrange(0, self.ids.len() as int) =~= self.ids@);
        valid_user_ids
    }
}

} // verus!
