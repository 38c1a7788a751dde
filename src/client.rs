//! A client: splits its bit, commits to the parts, proves the bit is 0 or 1,
//! hands each prover its share and reveals the shares that were not
//! acknowledged.
use vstd::prelude::*;
use crate::constants::PROVER_NUM;
use crate::group::{Point, md, scalar_from_u64};
use crate::public_parameters::PublicParameters;
use crate::replicated::{
    ReplicaSecret, ReplicaCommitment, ReplicaShare, logs_sum, vals_sum, lemma_commitment_sum,
    lemma_com_log_md,
};
use crate::sigma_or::{ProofStruct, proof_accepts, create_proof_0, create_proof_1};
use crate::user_store::{UserStore, User, board_ok, fresh_user};

verus! {

pub struct Client {
    pub id: u64,
    pub secret: ReplicaSecret,
    pub coms: ReplicaCommitment,
    pub sigma_proof: ProofStruct,
    pub pks: Vec<[u8; 32]>,
}

impl Client {
    /// The secret is split, each part committed with its blinding, and the
    /// proof passes against the sum of the commitments.
    pub open spec fn wf(&self, pp: PublicParameters) -> bool {
        &&& self.secret.wf()
        &&& self.coms.wf()
        &&& self.pks.len() == PROVER_NUM
        &&& forall|j: int|
            0 <= j < self.coms.com.len() ==> (#[trigger] self.coms.com@[j]).log()
                == pp.commit_base.com_log(
                self.secret.splits@[j].val(),
                self.secret.blindings@[j].val(),
            )
        &&& exists|c: Point|
            c.wf() && c.log() == md(logs_sum(self.coms.com@)) && #[trigger] proof_accepts(
                pp.commit_base,
                c,
                self.sigma_proof,
            )
    }

    /// A client with input bit `x`: a fresh split of `x`, its commitments,
    /// and the proof for the sum of the commitments.
    pub fn new(id: u64, x: bool, pp: &PublicParameters, pks: Vec<[u8; 32]>) -> (r: Self)
        requires
            pp.wf(),
            pks.len() == PROVER_NUM,
        ensures
            r.wf(*pp),
            r.id == id,
            r.secret.s.val() == (if x { 1int } else { 0int }),
            r.pks@ == pks@,
    {
        let x_scalar = scalar_from_u64(if x { 1 } else { 0 });
        let secret = ReplicaSecret::new(x_scalar);
        let r_sum = secret.get_sum_r();
        let coms = secret.commit(*pp.get_commit_base());
        let coms = ReplicaCommitment::new(coms);
        let sum = coms.get_sum();
        let proof = if x {
            create_proof_1(pp.get_commit_base(), r_sum)
        } else {
            create_proof_0(pp.get_commit_base(), r_sum)
        };
        proof {
            let base = pp.commit_base;
            lemma_commitment_sum(base, coms.com@, secret.splits@, secret.blindings@);
            lemma_com_log_md(base, vals_sum(secret.splits@), vals_sum(secret.blindings@));
            assert(sum.log() == base.com_log(x_scalar.val(), r_sum.val()));
            assert(proof_accepts(base, sum, proof));
        }
        let r = Client { id, secret, coms, sigma_proof: proof, pks };
        proof {
            assert(proof_accepts(pp.commit_base, sum, r.sigma_proof));
        }
        r
    }

    pub fn get_coms(&self) -> (r: ReplicaCommitment)
        ensures
            r.com@ == self.coms.com@,
    {
        self.coms.copy()
    }

    /// Posts the commitment and the proof on the bulletin board; fails when
    /// the client's id is already there.
    pub fn send_proof_coms<B: UserStore>(&self, broad: &mut B) -> (r: bool)
        requires
            board_ok(old(broad).users(), old(broad).ids()),
            self.coms.wf(),
        ensures
            board_ok(final(broad).users(), final(broad).ids()),
            r == !old(broad).users().contains_key(self.id),
            r ==> {
                let u = final(broad).users()[self.id];
                &&& final(broad).users().dom() == old(broad).users().dom().insert(self.id)
                &&& fresh_user(u, self.id, u.commitment, self.sigma_proof)
                &&& u.commitment.com@ == self.coms.com@
                &&& forall|k: u64|
                    k != self.id && #[trigger] old(broad).users().contains_key(k) ==> final(broad).users()[k] == old(broad).users()[k]
            },
            !r ==> final(broad).users() == old(broad).users() && final(broad).ids() == old(broad).ids(),
    {
        broad.new_user(self.id, self.coms.copy(), self.sigma_proof)
    }

    /// The share for prover `proverind`, with the client's id.
    pub fn send_share(&self, proverind: usize) -> (r: (u64, ReplicaShare))
        requires
            self.secret.wf(),
            proverind < PROVER_NUM,
        ensures
            r.0 == self.id,
            r.1.ind == proverind,
            r.1.is_share_of(self.secret),
    {
        let share = self.secret.get_share(proverind);
        (self.id, share)
    }

    /// Reveals on the bulletin board the share of every prover whose
    /// acknowledgement is missing; fails when the client has no entry.
    pub fn reveal_share<B: UserStore>(&self, broad: &mut B) -> (r: bool)
        requires
            board_ok(old(broad).users(), old(broad).ids()),
            self.secret.wf(),
            self.pks.len() == PROVER_NUM,
        ensures
            board_ok(final(broad).users(), final(broad).ids()),
            final(broad).ids() == old(broad).ids(),
            r == old(broad).users().contains_key(self.id),
            r ==> forall|i: int|
                0 <= i < PROVER_NUM && !old(broad).users()[self.id].slot_signed(self.pks@, i)
                    && old(broad).users()[self.id].share@[i].is_none() ==> {
                    let sh = final(broad).users()[self.id].share@[i];
                    sh.is_some() && sh.unwrap().ind == i && sh.unwrap().is_share_of(self.secret)
                },
            r ==> final(broad).users() == old(broad).users().insert(
                self.id,
                User { share: final(broad).users()[self.id].share, ..old(broad).users()[self.id] },
            ),
            r ==> forall|i: int|
                0 <= i < PROVER_NUM && (old(broad).users()[self.id].slot_signed(self.pks@, i)
                    || old(broad).users()[self.id].share@[i].is_some()) ==> final(broad).users()[self.id].share@[i] == old(broad).users()[self.id].share@[i],
            !r ==> final(broad).users() == old(broad).users(),
    {
        let signed = match broad.get_user(self.id) {
            Some(user) => user.check_signature(&self.pks),
            None => {
                return false;
            },
        };
        let ghost u0 = old(broad).users()[self.id];
        proof {
            assert(old(broad).users().insert(self.id, User { share: u0.share, ..u0 }) =~= old(broad).users());
        }
        let mut i: usize = 0;
        while i < PROVER_NUM
            invariant
                board_ok(broad.users(), broad.ids()),
                broad.ids() == old(broad).ids(),
                broad.users().contains_key(self.id),
                self.secret.wf(),
                self.pks.len() == PROVER_NUM,
                old(broad).users().contains_key(self.id),
                u0 == old(broad).users()[self.id],
                signed.len() == PROVER_NUM,
                forall|k: int| 0 <= k < PROVER_NUM ==> signed@[k] == u0.slot_signed(self.pks@, k),
                i <= PROVER_NUM,
                forall|k: int|
                    i <= k < PROVER_NUM ==> broad.users()[self.id].share@[k] == u0.share@[k],
                forall|k: int|
                    0 <= k < i && !u0.slot_signed(self.pks@, k) && u0.share@[k].is_none() ==> {
                        let sh = broad.users()[self.id].share@[k];
                        sh.is_some() && sh.unwrap().ind == k && sh.unwrap().is_share_of(self.secret)
                    },
                forall|k: int|
                    0 <= k < i ==> (#[trigger] broad.users()[self.id].share@[k]).is_none()
                        ==> u0.share@[k].is_none(),
                broad.users() == old(broad).users().insert(
                    self.id,
                    User { share: broad.users()[self.id].share, ..u0 },
                ),
                forall|k: int|
                    0 <= k < PROVER_NUM && (u0.slot_signed(self.pks@, k) || u0.share@[k].is_some())
                        ==> broad.users()[self.id].share@[k] == u0.share@[k],
            decreases PROVER_NUM - i,
        {
            if !signed[i] {
                let share = self.secret.get_share(i);
                let ghost before = broad.users();
                let ok = broad.upload_share(self.id, share, i);
                proof {
                    assert(broad.users()[self.id].share@.len() == PROVER_NUM);
                    if ok {
                        assert(broad.users() =~= old(broad).users().insert(
                            self.id,
                            User { share: broad.users()[self.id].share, ..u0 },
                        ));
                    }
                }
            }
            i = i + 1;
        }
        true
    }
}

} // verus!
