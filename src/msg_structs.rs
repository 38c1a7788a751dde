//! Messages: a client's share with the commitment and proof it belongs to,
//! and the public record of one client.
use vstd::prelude::*;
use crate::constants::PROVER_NUM;
use crate::commitment::CommitBase;
use crate::group::{Point, md, lemma_point_eq};
use crate::replicated::{ReplicaCommitment, ReplicaShare, logs_sum};
use crate::sigma_or::{ProofStruct, proof_accepts};
use crate::sign::{MySignature, verify_sig, sig_valid};

verus! {

/// The proof passes against the sum of the commitments `coms`.
pub open spec fn proof_valid_for(base: CommitBase, coms: ReplicaCommitment, proof: ProofStruct) -> bool {
    exists|c: Point|
        c.wf() && c.log() == md(logs_sum(coms.com@)) && #[trigger] proof_accepts(base, c, proof)
}

/// Checks the proof against the sum of the commitments.
fn check_sum_proof(base: &CommitBase, coms: &ReplicaCommitment, proof: &ProofStruct) -> (r: bool)
    requires
        base.wf(),
        coms.wf(),
    ensures
        r == proof_valid_for(*base, *coms, *proof),
{
    let sum = coms.get_sum();
    let r = proof.verify(base, sum);
    proof {
        if !r {
            assert forall|c: Point| c.wf() && c.log() == md(logs_sum(coms.com@)) implies !#[trigger] proof_accepts(
                *base,
                c,
                *proof,
            ) by {
                lemma_point_eq(c, sum);
            }
        }
    }
    r
}

/// A share sent to a prover, with the client's commitment and proof.
pub struct ShareProof {
    pub coms: ReplicaCommitment,
    pub share: ReplicaShare,
    pub proof: ProofStruct,
}

impl ShareProof {
    /// Whether the share opens the commitment and the proof passes against
    /// the sum of the commitment.
    pub fn verify(&self, commit_base: &CommitBase) -> (r: bool)
        requires
            commit_base.wf(),
        ensures
            r == (self.coms.wf() && self.share.wf() && self.share.opens(*commit_base, self.coms)
                && proof_valid_for(*commit_base, self.coms, self.proof)),
    {
        if !self.coms.is_valid() || !self.share.is_wf() {
            return false;
        }
        if !self.share.check_com(commit_base, self.coms.copy()) {
            return false;
        }
        check_sum_proof(commit_base, &self.coms, &self.proof)
    }
}

/// What a slot of the public record holds: an acknowledgement or a
/// revealed share.
pub enum SigOrShare {
    Signature(MySignature),
    Share(ReplicaShare),
}

/// The public record of one client.
pub struct Transcript {
    pub id: u64,
    pub coms: ReplicaCommitment,
    pub sigs_and_shares: Vec<SigOrShare>,
    pub sigma_or_proof: ProofStruct,
}

/// Slot `i` of the record holds a valid acknowledgement or prover `i`'s
/// share opening the commitment.
pub open spec fn slot_ok(
    base: CommitBase,
    pks: Seq<[u8; 32]>,
    coms: ReplicaCommitment,
    slot: SigOrShare,
    i: int,
) -> bool {
    match slot {
        SigOrShare::Signature(sig) => sig_valid(coms.com@, pks[i]@, sig.0@),
        SigOrShare::Share(sh) => sh.wf() && sh.ind == i && sh.opens(base, coms),
    }
}

impl Transcript {
    pub fn new(
        id: u64,
        coms: ReplicaCommitment,
        sigs_and_shares: Vec<SigOrShare>,
        sigma_or_proof: ProofStruct,
    ) -> (r: Self)
        ensures
            r.id == id,
            r.coms == coms,
            r.sigs_and_shares@ == sigs_and_shares@,
            r.sigma_or_proof == sigma_or_proof,
    {
        Transcript { id, coms, sigs_and_shares, sigma_or_proof }
    }

    /// Whether the record is valid: the proof passes and every slot is.
    pub fn verify(&self, base: &CommitBase, pks: &Vec<[u8; 32]>) -> (r: bool)
        requires
            base.wf(),
            pks.len() == PROVER_NUM,
        ensures
            r == (self.coms.wf() && self.sigs_and_shares.len() == PROVER_NUM && proof_valid_for(
                *base,
                self.coms,
                self.sigma_or_proof,
            ) && forall|i: int|
                0 <= i < PROVER_NUM ==> #[trigger] slot_ok(
                    *base,
                    pks@,
                    self.coms,
                    self.sigs_and_shares@[i],
                    i,
                )),
    {
        if !self.coms.is_valid() || self.sigs_and_shares.len() != PROVER_NUM {
            return false;
        }
        if !check_sum_proof(base, &self.coms, &self.sigma_or_proof) {
            return false;
        }
        let mut i: usize = 0;
        while i < PROVER_NUM
            invariant
                base.wf(),
                pks.len() == PROVER_NUM,
                self.coms.wf(),
                self.sigs_and_shares.len() == PROVER_NUM,
                i <= PROVER_NUM,
                forall|k: int|
                    0 <= k < i ==> #[trigger] slot_ok(
                        *base,
                        pks@,
                        self.coms,
                        self.sigs_and_shares@[k],
                        k,
                    ),
            decreases PROVER_NUM - i,
        {
            let ok = match &self.sigs_and_shares[i] {
                SigOrShare::Signature(sig) => verify_sig(&self.coms, &pks[i], sig),
                SigOrShare::Share(share) => {
                    if share.is_wf() && share.ind == i {
                        share.check_com(base, self.coms.copy())
                    } else {
                        false
                    }
                },
            };
            if !ok {
                proof {
                    assert(!slot_ok(*base, pks@, self.coms, self.sigs_and_shares@[i as int], i as int));
                }
                return false;
            }
            i = i + 1;
        }
        true
    }
}

} // verus!
