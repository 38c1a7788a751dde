//! The verifier: sums the commitments of the valid entries and checks each
//! prover's noised share against that sum plus the prover's masked noise
//! commitment.
use vstd::prelude::*;
use crate::constants::{PROVER_NUM, SHARE_LEN, SPLIT_LEN};
use crate::commitment::{CommitBase, lemma_commitment_homomorphism};
use crate::group::{
    Point, Scalar, md, identity, plus, point_is_valid, lemma_md_add, lemma_md_sub, lemma_md_small,
    lemma_log_bounds,
};
use crate::hash_xor::{masked_log, xor_commitments};
use crate::prover::{bit, noise_value, noise_blinding};
use crate::public_parameters::PublicParameters;
use crate::replicated::{ReplicaCommitment, ReplicaShare, point_logs, lemma_com_log_md};
use crate::user_store::{UserStore, User, valid_ids, board_ok};
use crate::sigma_or::{ProofStruct, proof_accepts};

verus! {

/// Sum of the masked logs of the bit commitments `us` under the public bits
/// `rs`, unreduced.
pub open spec fn noise_com_log(base: CommitBase, us: Seq<Point>, rs: Seq<bool>) -> int
    decreases us.len(),
{
    if us.len() == 0 {
        0
    } else {
        noise_com_log(base, us.drop_last(), rs) + masked_log(base, us.last(), rs[us.len() - 1])
    }
}

/// The noise commitment logs of one prover: one per share slot.
pub open spec fn noise_logs(base: CommitBase, rows: Seq<Vec<Point>>, rs: Seq<Vec<bool>>) -> Seq<int> {
    Seq::new(SHARE_LEN as nat, |l: int| md(noise_com_log(base, rows[l]@, rs[l]@)))
}

/// Sum over the clients `ids` of the logs of their commitments at position
/// `j`, unreduced.
pub open spec fn com_sum(ids: Seq<u64>, users: Map<u64, User>, j: int) -> int
    decreases ids.len(),
{
    if ids.len() == 0 {
        0
    } else {
        com_sum(ids.drop_last(), users, j) + users[ids.last()].commitment.com@[j].log()
    }
}

/// The published bit commitments of prover `ind` fit the public bits: one
/// row per share slot, each of group elements and no longer than its row of
/// public bits.
pub open spec fn rows_ok(coms_v_ks: Seq<Vec<Vec<Point>>>, ind: int, rs: Seq<Vec<bool>>) -> bool {
    &&& 0 <= ind < coms_v_ks.len()
    &&& coms_v_ks[ind].len() == SHARE_LEN
    &&& rs.len() == SHARE_LEN
    &&& forall|l: int|
        0 <= l < SHARE_LEN ==> (#[trigger] coms_v_ks[ind]@[l]).len() <= rs[l].len() && forall|b: int|
            0 <= b < coms_v_ks[ind]@[l].len() ==> (#[trigger] coms_v_ks[ind]@[l]@[b]).wf()
}

pub struct Verifier {
    pub coms_v_ks: Vec<Vec<Vec<Point>>>,
    pub pks: Vec<[u8; 32]>,
}

impl Verifier {
    pub fn new(coms_v_ks: Vec<Vec<Vec<Point>>>, pks: Vec<[u8; 32]>) -> (r: Self)
        ensures
            r.coms_v_ks@ == coms_v_ks@,
            r.pks@ == pks@,
    {
        Verifier { coms_v_ks, pks }
    }

    /// Whether every published bit commitment of prover `ind` comes with a
    /// passing proof that it opens to 0 or 1.
    pub fn check_bit_proofs(&self, ind: usize, proofs: &Vec<Vec<ProofStruct>>, pp: &PublicParameters) -> (r:
        bool)
        requires
            pp.wf(),
        ensures
            r == (ind < self.coms_v_ks.len() && proofs.len() == self.coms_v_ks@[ind as int].len()
                && forall|l: int|
                0 <= l < proofs.len() ==> (#[trigger] proofs@[l]).len()
                    == self.coms_v_ks@[ind as int]@[l].len() && forall|b: int|
                    0 <= b < proofs@[l].len() ==> proof_accepts(
                        pp.commit_base,
                        self.coms_v_ks@[ind as int]@[l]@[b],
                        #[trigger] proofs@[l]@[b],
                    )),
    {
        if ind >= self.coms_v_ks.len() {
            return false;
        }
        let rows = &self.coms_v_ks[ind];
        if proofs.len() != rows.len() {
            return false;
        }
        let mut l: usize = 0;
        while l < rows.len()
            invariant
                pp.wf(),
                ind < self.coms_v_ks.len(),
                *rows == self.coms_v_ks@[ind as int],
                proofs.len() == rows.len(),
                l <= rows.len(),
                forall|k: int|
                    0 <= k < l ==> (#[trigger] proofs@[k]).len() == rows@[k].len() && forall|b: int|
                        0 <= b < proofs@[k].len() ==> proof_accepts(
                            pp.commit_base,
                            rows@[k]@[b],
                            #[trigger] proofs@[k]@[b],
                        ),
            decreases rows.len() - l,
        {
            let row = &rows[l];
            let prow = &proofs[l];
            if prow.len() != row.len() {
                return false;
            }
            let mut b: usize = 0;
            while b < row.len()
                invariant
                    pp.wf(),
                    ind < self.coms_v_ks.len(),
                    *rows == self.coms_v_ks@[ind as int],
                    proofs.len() == rows.len(),
                    l < rows.len(),
                    *row == rows@[l as int],
                    *prow == proofs@[l as int],
                    prow.len() == row.len(),
                    b <= row.len(),
                    forall|k: int| 0 <= k < b ==> proof_accepts(pp.commit_base, row@[k], #[trigger] prow@[k]),
                decreases row.len() - b,
            {
                if !prow[b].verify(pp.get_commit_base(), row[b]) {
                    proof {
                        assert(!proof_accepts(pp.commit_base, rows@[l as int]@[b as int], proofs@[l as int]@[b as int]));
                    }
                    return false;
                }
                b = b + 1;
            }
            l = l + 1;
        }
        true
    }

    /// The position-wise sum of the commitments of the valid entries.
    pub fn check_all_users_and_sum_coms<B: UserStore>(&self, broad: &B, pp: &PublicParameters) -> (r:
        ReplicaCommitment)
        requires
            board_ok(broad.users(), broad.ids()),
            pp.wf(),
            self.pks.len() == PROVER_NUM,
        ensures
            r.wf(),
            forall|j: int|
                0 <= j < SPLIT_LEN ==> (#[trigger] r.com@[j]).log() == md(
                    com_sum(valid_ids(broad.ids(), broad.users(), self.pks@, pp.commit_base), broad.users(), j),
                ),
    {
        let valid_user_ids = broad.check_all_users(&self.pks, pp);
        proof {
            crate::user_store::lemma_valid_ids_in(broad.ids(), broad.users(), self.pks@, pp.commit_base);
            assert forall|k: int| 0 <= k < valid_user_ids.len() implies broad.users().contains_key(#[trigger] valid_user_ids@[k]) by {
                assert(broad.ids().contains(valid_user_ids@[k]));
            }
        }
        let mut sum_com = ReplicaCommitment::new_zero();
        let mut i: usize = 0;
        proof {
            lemma_md_small(0);
            assert(valid_user_ids@.subrange(0, 0) =~= Seq::<u64>::empty());
        }
        while i < valid_user_ids.len()
            invariant
                board_ok(broad.users(), broad.ids()),
                i <= valid_user_ids.len(),
                forall|k: int| 0 <= k < valid_user_ids.len() ==> broad.users().contains_key(#[trigger] valid_user_ids@[k]),
                sum_com.wf(),
                forall|j: int|
                    0 <= j < SPLIT_LEN ==> (#[trigger] sum_com.com@[j]).log() == md(
                        com_sum(valid_user_ids@.subrange(0, i as int), broad.users(), j),
                    ),
            decreases valid_user_ids.len() - i,
        {
            let id = valid_user_ids[i];
            let user = broad.get_user(id).unwrap();
            let next = sum_com.add(user.commitment.copy());
            proof {
                let pre = valid_user_ids@.subrange(0, i as int);
                assert(valid_user_ids@.subrange(0, i + 1).drop_last() =~= pre);
                assert forall|j: int| 0 <= j < SPLIT_LEN implies (#[trigger] next.com@[j]).log() == md(
                    com_sum(valid_user_ids@.subrange(0, i + 1), broad.users(), j),
                ) by {
                    lemma_md_add(com_sum(pre, broad.users(), j), user.commitment.com@[j].log());
                    lemma_log_bounds(user.commitment.com@[j]);
                }
            }
            sum_com = next;
            i = i + 1;
        }
        proof {
            assert(valid_user_ids@.subrange(0, valid_user_ids.len() as int) =~= valid_user_ids@);
        }
        sum_com
    }

    /// Whether prover `ind`'s noised share opens the aggregated commitment
    /// plus its noise commitments under the public bits.
    pub fn handle_prover_share(
        &self,
        ind: usize,
        share: ReplicaShare,
        aggregated_com: ReplicaCommitment,
        public_rand_bits: &Vec<Vec<bool>>,
        pp: &PublicParameters,
    ) -> (r: bool)
        requires
            pp.wf(),
            aggregated_com.wf(),
        ensures
            r == (ind == share.ind && share.wf() && rows_ok(self.coms_v_ks@, ind as int, public_rand_bits@)
                && share.opens_with_noise(
                pp.commit_base,
                aggregated_com,
                noise_logs(pp.commit_base, self.coms_v_ks@[ind as int]@, public_rand_bits@),
            )),
    {
        if ind != share.ind || !share.is_wf() || ind >= self.coms_v_ks.len() {
            return false;
        }
        let rows = &self.coms_v_ks[ind];
        if rows.len() != SHARE_LEN || public_rand_bits.len() != SHARE_LEN {
            return false;
        }
        let g = pp.get_g();
        let h = pp.get_h();
        let ghost base = pp.commit_base;
        let mut noise_commitments: Vec<Point> = Vec::new();
        let mut l: usize = 0;
        while l < SHARE_LEN
            invariant
                pp.wf(),
                g == pp.commit_base.g,
                h == pp.commit_base.h,
                base == pp.commit_base,
                ind < self.coms_v_ks.len(),
                *rows == self.coms_v_ks@[ind as int],
                rows.len() == SHARE_LEN,
                public_rand_bits.len() == SHARE_LEN,
                l <= SHARE_LEN,
                noise_commitments.len() == l,
                forall|k: int| 0 <= k < l ==> (#[trigger] noise_commitments@[k]).wf(),
                forall|k: int| 0 <= k < l ==> (#[trigger] noise_commitments@[k]).log() == md(noise_com_log(base, rows@[k]@, public_rand_bits@[k]@)),
                forall|k: int|
                    0 <= k < l ==> (#[trigger] rows@[k]).len() <= public_rand_bits@[k].len() && forall|b: int|
                        0 <= b < rows@[k].len() ==> (#[trigger] rows@[k]@[b]).wf(),
            decreases SHARE_LEN - l,
        {
            let row = &rows[l];
            let rbits = &public_rand_bits[l];
            if rbits.len() < row.len() {
                proof {
                    if rows_ok(self.coms_v_ks@, ind as int, public_rand_bits@) {
                        assert((self.coms_v_ks@[ind as int]@[l as int]).len() <= public_rand_bits@[l as int].len());
                    }
                }
                return false;
            }
            let mut b: usize = 0;
            while b < row.len()
                invariant
                    ind < self.coms_v_ks.len(),
                    *rows == self.coms_v_ks@[ind as int],
                    rows.len() == SHARE_LEN,
                    l < SHARE_LEN,
                    *row == rows@[l as int],
                    b <= row.len(),
                    forall|k: int| 0 <= k < b ==> (#[trigger] row@[k]).wf(),
                decreases row.len() - b,
            {
                if !point_is_valid(&row[b]) {
                    proof {
                        if rows_ok(self.coms_v_ks@, ind as int, public_rand_bits@) {
                            assert(self.coms_v_ks@[ind as int]@[l as int] == *row);
                            assert((self.coms_v_ks@[ind as int]@[l as int]@[b as int]).wf());
                        }
                    }
                    return false;
                }
                b = b + 1;
            }
            let xs = xor_commitments(row, rbits, g, h);
            let mut acc = identity();
            let mut b: usize = 0;
            proof {
                lemma_md_small(0);
                assert(row@.subrange(0, 0) =~= Seq::<Point>::empty());
            }
            while b < xs.len()
                invariant
                    xs.len() == row.len(),
                    row.len() <= rbits.len(),
                    forall|k: int| 0 <= k < xs.len() ==> (#[trigger] xs@[k]).wf(),
                    forall|k: int| 0 <= k < xs.len() ==> (#[trigger] xs@[k]).log() == masked_log(CommitBase { g, h }, row@[k], rbits@[k]),
                    base == (CommitBase { g, h }),
                    b <= xs.len(),
                    acc.wf(),
                    acc.log() == md(noise_com_log(base, row@.subrange(0, b as int), rbits@)),
                decreases xs.len() - b,
            {
                let next = plus(&acc, &xs[b]);
                proof {
                    let pre = row@.subrange(0, b as int);
                    assert(row@.subrange(0, b + 1).drop_last() =~= pre);
                    lemma_md_add(noise_com_log(base, pre, rbits@), xs@[b as int].log());
                    lemma_log_bounds(xs@[b as int]);
                }
                acc = next;
                b = b + 1;
            }
            proof {
                assert(row@.subrange(0, row.len() as int) =~= row@);
            }
            noise_commitments.push(acc);
            l = l + 1;
        }
        proof {
            assert(point_logs(noise_commitments@) =~= noise_logs(base, rows@, public_rand_bits@));
        }
        share.check_com_with_noise(pp.get_commit_base(), aggregated_com, noise_commitments)
    }
}

/// A masked bit commitment commits to the masked bit with the masked
/// blinding.
pub proof fn lemma_masked_commitment(base: CommitBase, v: bool, s: Scalar, u: Point, r: bool)
    requires
        base.wf(),
        u.wf(),
        u.log() == base.com_log(bit(v), s.val()),
    ensures
        md(masked_log(base, u, r)) == base.com_log(
            bit(v != r),
            if r { 1 - s.val() } else { s.val() },
        ),
{
    lemma_log_bounds(u);
    if r {
        let h = base.h.log();
        let x = 1 * bit(v) + h * s.val();
        lemma_md_sub(base.g.log() + h, x);
        crate::group::lemma_md_bound(base.g.log() + h - x);
        lemma_md_small(md(base.g.log() + h - x));
        assert(base.g.log() + h - x == 1 * bit(v != r) + h * (1 - s.val())) by (nonlinear_arith)
            requires
                base.g.log() == 1,
                x == 1 * bit(v) + h * s.val(),
                bit(v != r) == 1 - bit(v),
        ;
    }
}

/// The noise commitment of a row of honest bit commitments commits to the
/// row's noise with the row's summed blinding.
pub proof fn lemma_noise_commitment(
    base: CommitBase,
    vs: Seq<bool>,
    ss: Seq<Scalar>,
    us: Seq<Point>,
    rs: Seq<bool>,
)
    requires
        base.wf(),
        vs.len() == ss.len(),
        vs.len() == us.len(),
        us.len() <= rs.len(),
        forall|b: int| 0 <= b < us.len() ==> (#[trigger] us[b]).wf(),
        forall|b: int|
            0 <= b < us.len() ==> (#[trigger] us[b]).log() == base.com_log(bit(vs[b]), ss[b].val()),
    ensures
        md(noise_com_log(base, us, rs)) == base.com_log(noise_value(vs, rs), noise_blinding(ss, rs)),
    decreases us.len(),
{
    if us.len() == 0 {
        lemma_md_small(0);
        assert(base.g.log() * 0 + base.h.log() * 0 == 0) by (nonlinear_arith);
    } else {
        let n = us.len() - 1;
        lemma_noise_commitment(base, vs.drop_last(), ss.drop_last(), us.drop_last(), rs);
        lemma_masked_commitment(base, vs[n], ss[n], us[n], rs[n]);
        let a = noise_com_log(base, us.drop_last(), rs);
        let m = masked_log(base, us[n], rs[n]);
        lemma_md_add(a, m);
        crate::group::lemma_md_add(a, m);
        lemma_commitment_homomorphism(
            base,
            noise_value(vs.drop_last(), rs),
            noise_blinding(ss.drop_last(), rs),
            bit(vs[n] != rs[n]),
            if rs[n] { 1 - ss[n].val() } else { ss[n].val() },
        );
    }
}

/// Noised-share consistency: a prover that aggregates honestly and adds its
/// masked noise passes the verifier's check, for every choice of public
/// bits.
pub proof fn lemma_noised_share_consistency(
    base: CommitBase,
    bits: Seq<Vec<bool>>,
    bls: Seq<Vec<Scalar>>,
    rows: Seq<Vec<Point>>,
    rs: Seq<Vec<bool>>,
    agg: ReplicaShare,
    com: ReplicaCommitment,
    noised: ReplicaShare,
)
    requires
        base.wf(),
        com.wf(),
        bits.len() == SHARE_LEN,
        bls.len() == SHARE_LEN,
        rows.len() == SHARE_LEN,
        rs.len() == SHARE_LEN,
        forall|l: int|
            0 <= l < SHARE_LEN ==> (#[trigger] bits[l]).len() == bls[l].len() && bits[l].len()
                == rows[l].len() && rows[l].len() <= rs[l].len(),
        forall|l: int, b: int|
            0 <= l < SHARE_LEN && 0 <= b < rows[l].len() ==> (#[trigger] rows[l]@[b]).wf()
                && rows[l]@[b].log() == base.com_log(bit(bits[l]@[b]), bls[l]@[b].val()),
        agg.wf(),
        agg.opens(base, com),
        noised.wf(),
        noised.ind == agg.ind,
        forall|l: int|
            0 <= l < SHARE_LEN ==> (#[trigger] noised.share@[l]).val() == md(
                agg.share@[l].val() + noise_value(bits[l]@, rs[l]@),
            ),
        forall|l: int|
            0 <= l < SHARE_LEN ==> (#[trigger] noised.blindings@[l]).val() == md(
                agg.blindings@[l].val() + noise_blinding(bls[l]@, rs[l]@),
            ),
    ensures
        noised.opens_with_noise(base, com, noise_logs(base, rows, rs)),
{
    assert forall|l: int| 0 <= l < SHARE_LEN implies md(
        com.com@[crate::constants::spec_ind(noised.ind as int, l)].log() + noise_logs(base, rows, rs)[l],
    ) == #[trigger] base.com_log(noised.share@[l].val(), noised.blindings@[l].val()) by {
        let nv = noise_value(bits[l]@, rs[l]@);
        let nb = noise_blinding(bls[l]@, rs[l]@);
        assert forall|b: int| 0 <= b < rows[l]@.len() implies (#[trigger] rows[l]@[b]).wf()
            && rows[l]@[b].log() == base.com_log(bit(bits[l]@[b]), bls[l]@[b].val()) by {
        }
        lemma_noise_commitment(base, bits[l]@, bls[l]@, rows[l]@, rs[l]@);
        let c = com.com@[crate::constants::spec_ind(agg.ind as int, l)].log();
        assert(c == base.com_log(agg.share@[l].val(), agg.blindings@[l].val()));
        lemma_com_log_md(base, agg.share@[l].val() + nv, agg.blindings@[l].val() + nb);
        lemma_commitment_homomorphism(base, agg.share@[l].val(), agg.blindings@[l].val(), nv, nb);
        lemma_md_add(c, noise_com_log(base, rows[l]@, rs[l]@));
    }
}

} // verus!
