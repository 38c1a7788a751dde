//! A prover: commits to its mask bits with proofs that each is 0 or 1,
//! acknowledges valid client shares, sweeps the bulletin board, aggregates
//! its shares and adds the publicly masked noise.
use vstd::prelude::*;
use crate::constants::{PROVER_NUM, SHARE_LEN, BITS_NUM};
use crate::commitment::CommitBase;
use crate::group::{Point, Scalar, md, scalar_from_u64, scalar_add, scalar_sub, lemma_md_add};
use crate::public_parameters::PublicParameters;
use crate::replicated::{ReplicaShare, commitment_bytes};
use crate::share_store::ShareStore;
use crate::sigma_or::{ProofStruct, proof_accepts, create_proof_0_with_com, create_proof_1_with_com};
use crate::sign::{sign_verified_deal, ed25519_signature, ed25519_public_key, sig_valid};
use crate::user_store::{UserStore, User, valid_ids, board_ok};
use crate::util::{random_bit, random_scalars, scalar_one, scalar_zero};

verus! {

/// A bit as a number.
pub open spec fn bit(b: bool) -> int {
    if b { 1 } else { 0 }
}

/// Sum of the mask bits `vs` flipped where the public bits `rs` are set.
pub open spec fn noise_value(vs: Seq<bool>, rs: Seq<bool>) -> int
    decreases vs.len(),
{
    if vs.len() == 0 {
        0
    } else {
        noise_value(vs.drop_last(), rs) + bit(vs.last() != rs[vs.len() - 1])
    }
}

/// Sum of the blindings `ss`, each replaced by one minus itself where the
/// public bits `rs` are set.
pub open spec fn noise_blinding(ss: Seq<Scalar>, rs: Seq<bool>) -> int
    decreases ss.len(),
{
    if ss.len() == 0 {
        0
    } else {
        noise_blinding(ss.drop_last(), rs) + (if rs[ss.len() - 1] {
            1 - ss.last().val()
        } else {
            ss.last().val()
        })
    }
}

/// The share that prover `index` contributes for client `id`: the one it
/// stored, else a well-formed share of its own that the client revealed.
pub open spec fn contribution(
    store: Map<u64, ReplicaShare>,
    users: Map<u64, User>,
    id: u64,
    index: int,
) -> Option<ReplicaShare> {
    if store.contains_key(id) {
        Some(store[id])
    } else if users.contains_key(id) && users[id].share@[index].is_some()
        && users[id].share@[index].unwrap().wf() && users[id].share@[index].unwrap().ind == index {
        users[id].share@[index]
    } else {
        None
    }
}

/// Sum over the clients `ids` of the values in slot `l` of the
/// contributions (blindings instead when `blind`).
pub open spec fn agg_slot(
    ids: Seq<u64>,
    store: Map<u64, ReplicaShare>,
    users: Map<u64, User>,
    index: int,
    l: int,
    blind: bool,
) -> int
    decreases ids.len(),
{
    if ids.len() == 0 {
        0
    } else {
        let pre = agg_slot(ids.drop_last(), store, users, index, l, blind);
        match contribution(store, users, ids.last(), index) {
            Some(sh) => pre + (if blind { sh.blindings@[l].val() } else { sh.share@[l].val() }),
            None => pre,
        }
    }
}

/// The sweep of prover `index` takes the share revealed to it by client `k`:
/// the entry passes its check without its own acknowledgement.
pub open spec fn absorbs(users: Map<u64, User>, pks: Seq<[u8; 32]>, base: CommitBase, index: int, k: u64) -> bool {
    &&& users.contains_key(k)
    &&& lazy_valid(users[k], pks, base, index)
    &&& !users[k].slot_signed(pks, index)
}

/// Two shares with the same owner, values and blindings.
pub open spec fn same_share(a: ReplicaShare, b: ReplicaShare) -> bool {
    a.ind == b.ind && a.share@ == b.share@ && a.blindings@ == b.blindings@
}

/// The entry passes the check of prover `index`, which trusts its own
/// acknowledgement.
pub open spec fn lazy_valid(u: User, pks: Seq<[u8; 32]>, base: CommitBase, index: int) -> bool {
    u.slots_complete(pks, base) && (u.slot_signed(pks, index) || u.proof_valid(base))
}

/// The ids of `ids` whose entries pass the check of prover `index`.
pub open spec fn lazy_valid_ids(
    ids: Seq<u64>,
    users: Map<u64, User>,
    pks: Seq<[u8; 32]>,
    base: CommitBase,
    index: int,
) -> Seq<u64>
    decreases ids.len(),
{
    if ids.len() == 0 {
        Seq::empty()
    } else {
        let pre = lazy_valid_ids(ids.drop_last(), users, pks, base, index);
        if lazy_valid(users[ids.last()], pks, base, index) {
            pre.push(ids.last())
        } else {
            pre
        }
    }
}

pub struct Prover<D: ShareStore> {
    pub pp: PublicParameters,
    pub index: usize,
    pub bit_vector: Vec<Vec<bool>>,
    pub s_blinding: Vec<Vec<Scalar>>,
    pub coms_v_k: Vec<Vec<Point>>,
    pub proofs_v_k: Vec<Vec<ProofStruct>>,
    pub sig_key: [u8; 32],
    pub pks: Vec<[u8; 32]>,
    pub share_store: D,
}

impl<D: ShareStore> Prover<D> {
    /// One row of mask bits per share slot; each bit committed with its
    /// blinding and proven to be 0 or 1; stored shares are this prover's.
    pub open spec fn wf(&self) -> bool {
        &&& self.pp.wf()
        &&& self.index < PROVER_NUM
        &&& self.pks.len() == PROVER_NUM
        &&& self.bit_vector.len() == SHARE_LEN
        &&& self.s_blinding.len() == SHARE_LEN
        &&& self.coms_v_k.len() == SHARE_LEN
        &&& self.proofs_v_k.len() == SHARE_LEN
        &&& forall|l: int|
            0 <= l < SHARE_LEN ==> {
                &&& (#[trigger] self.bit_vector@[l]).len() == self.s_blinding@[l].len()
                &&& self.coms_v_k@[l].len() == self.bit_vector@[l].len()
                &&& self.proofs_v_k@[l].len() == self.bit_vector@[l].len()
            }
        &&& forall|l: int, b: int|
            0 <= l < SHARE_LEN && 0 <= b < self.bit_vector@[l].len() ==> {
                &&& (#[trigger] self.coms_v_k@[l]@[b]).wf()
                &&& self.coms_v_k@[l]@[b].log() == self.pp.commit_base.com_log(
                    bit(self.bit_vector@[l]@[b]),
                    self.s_blinding@[l]@[b].val(),
                )
                &&& proof_accepts(
                    self.pp.commit_base,
                    self.coms_v_k@[l]@[b],
                    self.proofs_v_k@[l]@[b],
                )
            }
        &&& forall|k: u64|
            #[trigger] self.share_store.view().contains_key(k) ==> self.share_store.view()[k].wf()
                && self.share_store.view()[k].ind == self.index
        &&& self.pks@[self.index as int]@ == ed25519_public_key(self.sig_key@)
    }

    /// A prover with the given mask bits and blindings: it commits to each
    /// bit and proves it is 0 or 1.
    pub fn from_bits(
        index: usize,
        pp: &PublicParameters,
        sig_key: [u8; 32],
        pks: &Vec<[u8; 32]>,
        share_store: D,
        bit_vector: Vec<Vec<bool>>,
        s_blinding: Vec<Vec<Scalar>>,
    ) -> (r: Self)
        requires
            pp.wf(),
            index < PROVER_NUM,
            pks.len() == PROVER_NUM,
            bit_vector.len() == SHARE_LEN,
            s_blinding.len() == SHARE_LEN,
            forall|l: int|
                0 <= l < SHARE_LEN ==> (#[trigger] bit_vector@[l]).len() == s_blinding@[l].len(),
            forall|k: u64|
                #[trigger] share_store.view().contains_key(k) ==> share_store.view()[k].wf()
                    && share_store.view()[k].ind == index,
            pks@[index as int]@ == ed25519_public_key(sig_key@),
        ensures
            r.wf(),
            r.index == index,
            r.pp == *pp,
            r.bit_vector@ == bit_vector@,
            r.s_blinding@ == s_blinding@,
            r.pks@ == pks@,
            r.sig_key == sig_key,
            r.share_store == share_store,
    {
        let base = pp.get_commit_base();
        let mut coms_v_k: Vec<Vec<Point>> = Vec::new();
        let mut proofs_v_k: Vec<Vec<ProofStruct>> = Vec::new();
        let mut i: usize = 0;
        while i < SHARE_LEN
            invariant
                pp.wf(),
                *base == pp.commit_base,
                bit_vector.len() == SHARE_LEN,
                s_blinding.len() == SHARE_LEN,
                forall|l: int|
                    0 <= l < SHARE_LEN ==> (#[trigger] bit_vector@[l]).len() == s_blinding@[l].len(),
                i <= SHARE_LEN,
                coms_v_k.len() == i,
                proofs_v_k.len() == i,
                forall|l: int|
                    0 <= l < i ==> (#[trigger] coms_v_k@[l]).len() == bit_vector@[l].len()
                        && proofs_v_k@[l].len() == bit_vector@[l].len(),
                forall|l: int, b: int|
                    0 <= l < i && 0 <= b < bit_vector@[l].len() ==> {
                        &&& (#[trigger] coms_v_k@[l]@[b]).wf()
                        &&& coms_v_k@[l]@[b].log() == pp.commit_base.com_log(
                            bit(bit_vector@[l]@[b]),
                            s_blinding@[l]@[b].val(),
                        )
                        &&& proof_accepts(pp.commit_base, coms_v_k@[l]@[b], proofs_v_k@[l]@[b])
                    },
            decreases SHARE_LEN - i,
        {
            let mut row: Vec<Point> = Vec::new();
            let mut prow: Vec<ProofStruct> = Vec::new();
            let mut j: usize = 0;
            while j < bit_vector[i].len()
                invariant
                    pp.wf(),
                    *base == pp.commit_base,
                    i < SHARE_LEN,
                    bit_vector.len() == SHARE_LEN,
                    s_blinding.len() == SHARE_LEN,
                    bit_vector@[i as int].len() == s_blinding@[i as int].len(),
                    j <= bit_vector@[i as int].len(),
                    row.len() == j,
                    prow.len() == j,
                    forall|b: int|
                        0 <= b < j ==> {
                            &&& (#[trigger] row@[b]).wf()
                            &&& row@[b].log() == pp.commit_base.com_log(
                                bit(bit_vector@[i as int]@[b]),
                                s_blinding@[i as int]@[b].val(),
                            )
                            &&& proof_accepts(pp.commit_base, row@[b], prow@[b])
                        },
                decreases bit_vector@[i as int].len() - j,
            {
                let v = bit_vector[i][j];
                let s = s_blinding[i][j];
                let m = scalar_from_u64(if v { 1 } else { 0 });
                let com = base.commit(m, s);
                let proof = if v {
                    create_proof_1_with_com(base, s, com)
                } else {
                    create_proof_0_with_com(base, s, com)
                };
                row.push(com);
                prow.push(proof);
                j = j + 1;
            }
            coms_v_k.push(row);
            proofs_v_k.push(prow);
            i = i + 1;
        }
        Prover {
            pp: *pp,
            index,
            bit_vector,
            s_blinding,
            coms_v_k,
            proofs_v_k,
            sig_key,
            pks: copy_keys(pks),
            share_store,
        }
    }

    /// A prover with `BITS_NUM` fresh random mask bits and blindings per
    /// share slot.
    pub fn new(
        index: usize,
        pp: &PublicParameters,
        sig_key: [u8; 32],
        pks: &Vec<[u8; 32]>,
        share_store: D,
    ) -> (r: Self)
        requires
            pp.wf(),
            index < PROVER_NUM,
            pks.len() == PROVER_NUM,
            forall|k: u64|
                #[trigger] share_store.view().contains_key(k) ==> share_store.view()[k].wf()
                    && share_store.view()[k].ind == index,
            pks@[index as int]@ == ed25519_public_key(sig_key@),
        ensures
            r.wf(),
            r.index == index,
            r.pp == *pp,
            r.pks@ == pks@,
            r.sig_key == sig_key,
            r.share_store == share_store,
            forall|l: int| 0 <= l < SHARE_LEN ==> (#[trigger] r.bit_vector@[l]).len() == BITS_NUM,
    {
        let mut s_blinding: Vec<Vec<Scalar>> = Vec::new();
        let mut bit_vector: Vec<Vec<bool>> = Vec::new();
        let mut i: usize = 0;
        while i < SHARE_LEN
            invariant
                i <= SHARE_LEN,
                s_blinding.len() == i,
                bit_vector.len() == i,
                forall|l: int| 0 <= l < i ==> (#[trigger] bit_vector@[l]).len() == BITS_NUM,
                forall|l: int| 0 <= l < i ==> (#[trigger] s_blinding@[l]).len() == BITS_NUM,
            decreases SHARE_LEN - i,
        {
            s_blinding.push(random_scalars(BITS_NUM));
            let mut bits: Vec<bool> = Vec::new();
            let mut j: usize = 0;
            while j < BITS_NUM
                invariant
                    j <= BITS_NUM,
                    bits.len() == j,
                decreases BITS_NUM - j,
            {
                bits.push(random_bit());
                j = j + 1;
            }
            bit_vector.push(bits);
            i = i + 1;
        }
        Self::from_bits(index, pp, sig_key, pks, share_store, bit_vector, s_blinding)
    }

    /// The commitments to the mask bits, one row per share slot.
    pub fn get_coms_v_k(&self) -> (r: Vec<Vec<Point>>)
        ensures
            r.len() == self.coms_v_k.len(),
            forall|l: int| 0 <= l < r.len() ==> (#[trigger] r@[l])@ == self.coms_v_k@[l]@,
    {
        let mut r: Vec<Vec<Point>> = Vec::new();
        let mut i: usize = 0;
        while i < self.coms_v_k.len()
            invariant
                i <= self.coms_v_k.len(),
                r.len() == i,
                forall|l: int| 0 <= l < i ==> (#[trigger] r@[l])@ == self.coms_v_k@[l]@,
            decreases self.coms_v_k.len() - i,
        {
            let row = &self.coms_v_k[i];
            let mut c: Vec<Point> = Vec::new();
            let mut j: usize = 0;
            while j < row.len()
                invariant
                    j <= row.len(),
                    c@ == row@.subrange(0, j as int),
                decreases row.len() - j,
            {
                c.push(row[j]);
                j = j + 1;
                assert(c@ =~= row@.subrange(0, j as int));
            }
            assert(row@.subrange(0, row.len() as int) =~= row@);
            r.push(c);
            i = i + 1;
        }
        r
    }

    /// Checks a client's share against the client's entry; when the proof
    /// and the share are valid, stores the share and posts this prover's
    /// acknowledgement, which succeeds when its slot is still empty.
    pub fn handle_client<B: UserStore>(&mut self, client: (u64, ReplicaShare), broad: &mut B) -> (r:
        bool)
        requires
            old(self).wf(),
            board_ok(old(broad).users(), old(broad).ids()),
        ensures
            final(self).wf(),
            board_ok(final(broad).users(), final(broad).ids()),
            final(broad).ids() == old(broad).ids(),
            final(self).index == old(self).index,
            final(self).pp == old(self).pp,
            final(self).pks@ == old(self).pks@,
            final(self).sig_key == old(self).sig_key,
            r == ({
                let u = old(broad).users()[client.0];
                &&& old(broad).users().contains_key(client.0)
                &&& u.proof_valid(old(self).pp.commit_base)
                &&& client.1.wf()
                &&& client.1.ind == old(self).index
                &&& client.1.opens(old(self).pp.commit_base, u.commitment)
                &&& u.signatures@[old(self).index as int].is_none()
            }),
            r ==> {
                let u = old(broad).users()[client.0];
                let sig = final(broad).users()[client.0].signatures@[old(self).index as int];
                &&& final(self).share_store.view() == old(self).share_store.view().insert(
                    client.0,
                    client.1,
                )
                &&& final(broad).users() == old(broad).users().insert(
                    client.0,
                    User { signatures: final(broad).users()[client.0].signatures, ..u },
                )
                &&& final(broad).users()[client.0].signatures@ == u.signatures@.update(
                    old(self).index as int,
                    sig,
                )
                &&& sig.is_some()
                &&& sig.unwrap().0@ == ed25519_signature(
                    old(self).sig_key@,
                    commitment_bytes(u.commitment.com@),
                )
                &&& sig_valid(
                    u.commitment.com@,
                    old(self).pks@[old(self).index as int]@,
                    sig.unwrap().0@,
                )
            },
            !r ==> final(self).share_store.view() == old(self).share_store.view()
                && final(broad).users() == old(broad).users(),
    {
        let (id, replica_share) = client;
        let coms = match broad.get_user(id) {
            Some(user) => {
                if !user.check_proof(&self.pp) {
                    return false;
                }
                user.commitment.copy()
            },
            None => {
                return false;
            },
        };
        let ghost u = broad.users()[id];
        if !replica_share.is_wf() || replica_share.ind != self.index {
            return false;
        }
        if !replica_share.check_com(self.pp.get_commit_base(), coms.copy()) {
            return false;
        }
        let sig = sign_verified_deal(&self.sig_key, &coms);
        let posted = broad.sig_to_user(id, sig, self.index);
        if posted {
            self.share_store.put(id, replica_share);
        }
        posted
    }

    /// Adds to the running sum `acc` the contribution for client `id`.
    fn add_contribution<B: UserStore>(&self, broad: &B, acc: ReplicaShare, id: u64) -> (r: ReplicaShare)
        requires
            self.wf(),
            board_ok(broad.users(), broad.ids()),
            acc.wf(),
            acc.ind == self.index,
        ensures
            r.wf(),
            r.ind == self.index,
            forall|l: int|
                0 <= l < SHARE_LEN ==> (#[trigger] r.share@[l]).val() == md(
                    acc.share@[l].val() + match contribution(
                        self.share_store.view(),
                        broad.users(),
                        id,
                        self.index as int,
                    ) {
                        Some(sh) => sh.share@[l].val(),
                        None => 0,
                    },
                ),
            forall|l: int|
                0 <= l < SHARE_LEN ==> (#[trigger] r.blindings@[l]).val() == md(
                    acc.blindings@[l].val() + match contribution(
                        self.share_store.view(),
                        broad.users(),
                        id,
                        self.index as int,
                    ) {
                        Some(sh) => sh.blindings@[l].val(),
                        None => 0,
                    },
                ),
    {
        match self.share_store.get(id) {
            Some(share) => {
                return acc.add(share);
            },
            None => {},
        }
        match broad.get_user(id) {
            Some(user) => {
                match &user.share[self.index] {
                    Some(sh) => {
                        if sh.is_wf() && sh.ind == self.index {
                            return acc.add(sh);
                        }
                    },
                    None => {},
                }
            },
            None => {},
        }
        proof {
            assert forall|l: int| 0 <= l < SHARE_LEN implies md(acc.share@[l].val() + 0) == acc.share@[l].val()
                && md(acc.blindings@[l].val() + 0) == acc.blindings@[l].val() by {
                crate::group::lemma_scalar_bound(acc.share@[l]);
                crate::group::lemma_scalar_bound(acc.blindings@[l]);
            }
        }
        acc
    }

    /// Sums the contributions for the clients `ids` onto `acc`.
    fn sum_over<B: UserStore>(&self, broad: &B, ids: &Vec<u64>) -> (r: ReplicaShare)
        requires
            self.wf(),
            board_ok(broad.users(), broad.ids()),
        ensures
            r.wf(),
            r.ind == self.index,
            forall|l: int|
                0 <= l < SHARE_LEN ==> (#[trigger] r.share@[l]).val() == md(
                    agg_slot(ids@, self.share_store.view(), broad.users(), self.index as int, l, false),
                ),
            forall|l: int|
                0 <= l < SHARE_LEN ==> (#[trigger] r.blindings@[l]).val() == md(
                    agg_slot(ids@, self.share_store.view(), broad.users(), self.index as int, l, true),
                ),
    {
        let mut sum_share = ReplicaShare::new_zero(self.index);
        let mut i: usize = 0;
        proof {
            crate::group::lemma_md_small(0);
            assert(ids@.subrange(0, 0) =~= Seq::<u64>::empty());
        }
        while i < ids.len()
            invariant
                self.wf(),
                board_ok(broad.users(), broad.ids()),
                i <= ids.len(),
                sum_share.wf(),
                sum_share.ind == self.index,
                forall|l: int|
                    0 <= l < SHARE_LEN ==> (#[trigger] sum_share.share@[l]).val() == md(
                        agg_slot(ids@.subrange(0, i as int), self.share_store.view(), broad.users(), self.index as int, l, false),
                    ),
                forall|l: int|
                    0 <= l < SHARE_LEN ==> (#[trigger] sum_share.blindings@[l]).val() == md(
                        agg_slot(ids@.subrange(0, i as int), self.share_store.view(), broad.users(), self.index as int, l, true),
                    ),
            decreases ids.len() - i,
        {
            let id = ids[i];
            let next = self.add_contribution(broad, sum_share, id);
            proof {
                let pre = ids@.subrange(0, i as int);
                assert(ids@.subrange(0, i + 1).drop_last() =~= pre);
                let c = contribution(self.share_store.view(), broad.users(), id, self.index as int);
                assert forall|l: int| 0 <= l < SHARE_LEN implies (#[trigger] next.share@[l]).val() == md(
                    agg_slot(ids@.subrange(0, i + 1), self.share_store.view(), broad.users(), self.index as int, l, false),
                ) by {
                    let a = agg_slot(pre, self.share_store.view(), broad.users(), self.index as int, l, false);
                    let x = match c { Some(sh) => sh.share@[l].val(), None => 0 };
                    lemma_md_add(a, x);
                }
                assert forall|l: int| 0 <= l < SHARE_LEN implies (#[trigger] next.blindings@[l]).val() == md(
                    agg_slot(ids@.subrange(0, i + 1), self.share_store.view(), broad.users(), self.index as int, l, true),
                ) by {
                    let b = agg_slot(pre, self.share_store.view(), broad.users(), self.index as int, l, true);
                    let y = match c { Some(sh) => sh.blindings@[l].val(), None => 0 };
                    lemma_md_add(b, y);
                }
            }
            sum_share = next;
            i = i + 1;
        }
        assert(ids@.subrange(0, ids.len() as int) =~= ids@);
        sum_share
    }

    /// This prover's aggregate share over the clients `valid_user_ids`.
    pub fn sum_share<B: UserStore>(&self, broad: &B, valid_user_ids: &Vec<u64>) -> (r: ReplicaShare)
        requires
            self.wf(),
            board_ok(broad.users(), broad.ids()),
        ensures
            r.wf(),
            r.ind == self.index,
            forall|l: int|
                0 <= l < SHARE_LEN ==> (#[trigger] r.share@[l]).val() == md(
                    agg_slot(valid_user_ids@, self.share_store.view(), broad.users(), self.index as int, l, false),
                ),
            forall|l: int|
                0 <= l < SHARE_LEN ==> (#[trigger] r.blindings@[l]).val() == md(
                    agg_slot(valid_user_ids@, self.share_store.view(), broad.users(), self.index as int, l, true),
                ),
    {
        self.sum_over(broad, valid_user_ids)
    }

    /// This prover's aggregate share over the valid entries of the board.
    pub fn check_all_users_and_sum_share<B: UserStore>(&self, broad: &B) -> (r: ReplicaShare)
        requires
            self.wf(),
            board_ok(broad.users(), broad.ids()),
        ensures
            r.wf(),
            r.ind == self.index,
            forall|l: int|
                0 <= l < SHARE_LEN ==> (#[trigger] r.share@[l]).val() == md(
                    agg_slot(
                        valid_ids(broad.ids(), broad.users(), self.pks@, self.pp.commit_base),
                        self.share_store.view(),
                        broad.users(),
                        self.index as int,
                        l,
                        false,
                    ),
                ),
            forall|l: int|
                0 <= l < SHARE_LEN ==> (#[trigger] r.blindings@[l]).val() == md(
                    agg_slot(
                        valid_ids(broad.ids(), broad.users(), self.pks@, self.pp.commit_base),
                        self.share_store.view(),
                        broad.users(),
                        self.index as int,
                        l,
                        true,
                    ),
                ),
    {
        let valid_user_ids = broad.check_all_users(&self.pks, &self.pp);
        self.sum_over(broad, &valid_user_ids)
    }

    /// Sweeps the board with the check of this prover, absorbing the shares
    /// revealed to it; returns the ids that pass, in increasing order.
    pub fn check_all_users<B: UserStore>(&mut self, broad: &B) -> (r: Vec<u64>)
        requires
            old(self).wf(),
            board_ok(broad.users(), broad.ids()),
        ensures
            final(self).wf(),
            final(self).index == old(self).index,
            final(self).pp == old(self).pp,
            final(self).pks@ == old(self).pks@,
            final(self).sig_key == old(self).sig_key,
            r@ == lazy_valid_ids(broad.ids(), broad.users(), old(self).pks@, old(self).pp.commit_base, old(self).index as int),
            forall|k: u64|
                #[trigger] absorbs(broad.users(), old(self).pks@, old(self).pp.commit_base, old(self).index as int, k)
                    ==> final(self).share_store.view().contains_key(k) && same_share(
                    final(self).share_store.view()[k],
                    broad.users()[k].share@[old(self).index as int].unwrap(),
                ),
            forall|k: u64|
                !#[trigger] absorbs(broad.users(), old(self).pks@, old(self).pp.commit_base, old(self).index as int, k)
                    ==> final(self).share_store.view().contains_key(k) == old(self).share_store.view().contains_key(k)
                    && (old(self).share_store.view().contains_key(k) ==> final(self).share_store.view()[k]
                    == old(self).share_store.view()[k]),
    {
        let ids = broad.iter_all_users();
        let mut valid_user_ids: Vec<u64> = Vec::new();
        let mut i: usize = 0;
        let ghost users = broad.users();
        let ghost pks = self.pks@;
        let ghost base = self.pp.commit_base;
        let ghost index = self.index as int;
        let ghost old_store = self.share_store.view();
        while i < ids.len()
            invariant
                self.wf(),
                board_ok(broad.users(), broad.ids()),
                users == broad.users(),
                self.index == old(self).index,
                index == self.index as int,
                self.pp == old(self).pp,
                base == self.pp.commit_base,
                self.pks@ == old(self).pks@,
                pks == self.pks@,
                self.sig_key == old(self).sig_key,
                old_store == old(self).share_store.view(),
                ids@ == broad.ids(),
                i <= ids.len(),
                valid_user_ids@ == lazy_valid_ids(broad.ids().subrange(0, i as int), users, pks, base, index),
                forall|k: u64|
                    #[trigger] absorbs(users, pks, base, index, k) && ids@.subrange(0, i as int).contains(k)
                        ==> self.share_store.view().contains_key(k) && same_share(
                        self.share_store.view()[k],
                        users[k].share@[index].unwrap(),
                    ),
                forall|k: u64|
                    !(#[trigger] absorbs(users, pks, base, index, k) && ids@.subrange(0, i as int).contains(k))
                        ==> self.share_store.view().contains_key(k) == old_store.contains_key(k)
                        && (old_store.contains_key(k) ==> self.share_store.view()[k] == old_store[k]),
            decreases ids.len() - i,
        {
            let id = ids[i];
            let ghost pre = ids@.subrange(0, i as int);
            proof {
                assert(broad.ids().contains(id));
                assert(broad.ids().subrange(0, i + 1).drop_last() =~= broad.ids().subrange(0, i as int));
                assert(ids@.subrange(0, i + 1) =~= pre.push(id));
                assert(!pre.contains(id)) by {
                    if pre.contains(id) {
                        let j = choose|j: int| 0 <= j < pre.len() && pre[j] == id;
                        assert(ids@[j] < ids@[i as int]);
                    }
                }
                assert forall|k: u64| #[trigger] pre.push(id).contains(k) == (pre.contains(k) || k == id) by {
                    if pre.push(id).contains(k) {
                        let j = choose|j: int| 0 <= j < pre.len() + 1 && pre.push(id)[j] == k;
                        if j < pre.len() {
                            assert(pre[j] == k);
                        }
                    }
                    if pre.contains(k) {
                        let j = choose|j: int| 0 <= j < pre.len() && pre[j] == k;
                        assert(pre.push(id)[j] == k);
                    }
                    if k == id {
                        assert(pre.push(id)[pre.len() as int] == k);
                    }
                }
            }
            let user = broad.get_user(id).unwrap();
            let (res, share) = user.check_whole_lazy(&self.pks, &self.pp, self.index);
            if res {
                valid_user_ids.push(id);
            }
            let ghost before = self.share_store.view();
            proof {
                assert(pre =~= ids@.subrange(0, i as int));
            }
            match share {
                Some(sh) => {
                    self.share_store.put(id, sh);
                    proof {
                        assert(absorbs(users, pks, base, index, id));
                    }
                },
                None => {
                    proof {
                        assert(!absorbs(users, pks, base, index, id));
                    }
                },
            }
            proof {
                assert forall|k: u64|
                    !(#[trigger] absorbs(users, pks, base, index, k) && pre.push(id).contains(k))
                        implies self.share_store.view().contains_key(k) == old_store.contains_key(k)
                        && (old_store.contains_key(k) ==> self.share_store.view()[k] == old_store[k]) by {
                    assert(pre.push(id).contains(k) == (pre.contains(k) || k == id));
                    assert(!(absorbs(users, pks, base, index, k) && pre.contains(k)));
                    assert(before.contains_key(k) == old_store.contains_key(k));
                    assert(old_store.contains_key(k) ==> before[k] == old_store[k]);
                    if k != id {
                        assert(self.share_store.view().contains_key(k) == before.contains_key(k));
                        assert(before.contains_key(k) ==> self.share_store.view()[k] == before[k]);
                    } else {
                        assert(!absorbs(users, pks, base, index, k));
                        assert(self.share_store.view() == before);
                    }
                }
            }
            i = i + 1;
            proof {
                assert(ids@.subrange(0, i as int) =~= pre.push(id));
                assert forall|k: u64|
                    !(#[trigger] absorbs(users, pks, base, index, k) && ids@.subrange(0, i as int).contains(k))
                        implies self.share_store.view().contains_key(k) == old_store.contains_key(k)
                        && (old_store.contains_key(k) ==> self.share_store.view()[k] == old_store[k]) by {
                    assert(ids@.subrange(0, i as int).contains(k) == pre.push(id).contains(k));
                }
            }
        }
        proof {
            assert(ids@.subrange(0, ids.len() as int) =~= ids@);
            assert(broad.ids().subrange(0, ids.len() as int) =~= broad.ids());
            assert forall|k: u64| #[trigger] absorbs(users, pks, base, index, k) implies ids@.contains(k) by {
            }
        }
        valid_user_ids
    }

    /// This prover's share with its masked noise added: in slot `l`, the
    /// mask bits flipped by the public bits `pub_rand_bits[l]` are summed
    /// into the value and the matching blindings into the blinding.
    pub fn add_noise_from_rand_bits(&self, pub_rand_bits: &Vec<Vec<bool>>, share: ReplicaShare) -> (r:
        ReplicaShare)
        requires
            self.wf(),
            share.wf(),
            pub_rand_bits.len() == SHARE_LEN,
            forall|l: int|
                0 <= l < SHARE_LEN ==> (#[trigger] pub_rand_bits@[l]).len() == self.bit_vector@[l].len(),
        ensures
            r.wf(),
            r.ind == share.ind,
            forall|l: int|
                0 <= l < SHARE_LEN ==> (#[trigger] r.share@[l]).val() == md(
                    share.share@[l].val() + noise_value(self.bit_vector@[l]@, pub_rand_bits@[l]@),
                ),
            forall|l: int|
                0 <= l < SHARE_LEN ==> (#[trigger] r.blindings@[l]).val() == md(
                    share.blindings@[l].val() + noise_blinding(self.s_blinding@[l]@, pub_rand_bits@[l]@),
                ),
    {
        let one = scalar_one();
        let mut noise: Vec<Scalar> = Vec::new();
        let mut noise_proof: Vec<Scalar> = Vec::new();
        let mut i: usize = 0;
        while i < SHARE_LEN
            invariant
                self.wf(),
                pub_rand_bits.len() == SHARE_LEN,
                forall|l: int|
                    0 <= l < SHARE_LEN ==> (#[trigger] pub_rand_bits@[l]).len() == self.bit_vector@[l].len(),
                one.val() == 1,
                i <= SHARE_LEN,
                noise.len() == i,
                noise_proof.len() == i,
                forall|l: int|
                    0 <= l < i ==> (#[trigger] noise@[l]).val() == md(
                        noise_value(self.bit_vector@[l]@, pub_rand_bits@[l]@),
                    ),
                forall|l: int|
                    0 <= l < i ==> (#[trigger] noise_proof@[l]).val() == md(
                        noise_blinding(self.s_blinding@[l]@, pub_rand_bits@[l]@),
                    ),
            decreases SHARE_LEN - i,
        {
            let bits = &self.bit_vector[i];
            let bls = &self.s_blinding[i];
            let rbits = &pub_rand_bits[i];
            let mut n = scalar_zero();
            let mut t = scalar_zero();
            let mut j: usize = 0;
            proof {
                crate::group::lemma_md_small(0);
                assert(bits@.subrange(0, 0) =~= Seq::<bool>::empty());
                assert(bls@.subrange(0, 0) =~= Seq::<Scalar>::empty());
            }
            while j < bits.len()
                invariant
                    bits.len() == bls.len(),
                    rbits.len() == bits.len(),
                    one.val() == 1,
                    j <= bits.len(),
                    n.val() == md(noise_value(bits@.subrange(0, j as int), rbits@)),
                    t.val() == md(noise_blinding(bls@.subrange(0, j as int), rbits@)),
                decreases bits.len() - j,
            {
                let flipped = bits[j] != rbits[j];
                let v = scalar_from_u64(if flipped { 1 } else { 0 });
                let s = if rbits[j] { scalar_sub(&one, &bls[j]) } else { bls[j] };
                let n2 = scalar_add(&n, &v);
                let t2 = scalar_add(&t, &s);
                proof {
                    let pb = bits@.subrange(0, j as int);
                    let ps = bls@.subrange(0, j as int);
                    assert(bits@.subrange(0, j + 1).drop_last() =~= pb);
                    assert(bls@.subrange(0, j + 1).drop_last() =~= ps);
                    lemma_md_add(noise_value(pb, rbits@), v.val());
                    let sv = if rbits@[j as int] { 1 - bls@[j as int].val() } else { bls@[j as int].val() };
                    crate::group::lemma_scalar_bound(bls@[j as int]);
                    crate::group::lemma_md_small(bls@[j as int].val());
                    assert(s.val() == md(sv));
                    lemma_md_add(noise_blinding(ps, rbits@), sv);
                    crate::group::lemma_md_add(noise_blinding(ps, rbits@), sv);
                }
                n = n2;
                t = t2;
                j = j + 1;
            }
            assert(bits@.subrange(0, bits.len() as int) =~= bits@);
            assert(bls@.subrange(0, bls.len() as int) =~= bls@);
            noise.push(n);
            noise_proof.push(t);
            i = i + 1;
        }
        let r = share.add_noise(noise, noise_proof);
        proof {
            assert forall|l: int| 0 <= l < SHARE_LEN implies (#[trigger] r.share@[l]).val() == md(
                share.share@[l].val() + noise_value(self.bit_vector@[l]@, pub_rand_bits@[l]@),
            ) by {
                lemma_md_add(share.share@[l].val(), noise_value(self.bit_vector@[l]@, pub_rand_bits@[l]@));
            }
            assert forall|l: int| 0 <= l < SHARE_LEN implies (#[trigger] r.blindings@[l]).val() == md(
                share.blindings@[l].val() + noise_blinding(self.s_blinding@[l]@, pub_rand_bits@[l]@),
            ) by {
                lemma_md_add(share.blindings@[l].val(), noise_blinding(self.s_blinding@[l]@, pub_rand_bits@[l]@));
            }
        }
        r
    }
}

/// A copy of a list of ids.
pub fn copy_ids(ids: &Vec<u64>) -> (r: Vec<u64>)
    ensures
        r@ == ids@,
{
    let mut r: Vec<u64> = Vec::new();
    let mut i: usize = 0;
    while i < ids.len()
        invariant
            i <= ids.len(),
            r@ == ids@.subrange(0, i as int),
        decreases ids.len() - i,
    {
        r.push(ids[i]);
        i = i + 1;
        assert(r@ =~= ids@.subrange(0, i as int));
    }
    assert(ids@.subrange(0, ids.len() as int) =~= ids@);
    r
}

/// A copy of a list of public keys.
pub fn copy_keys(pks: &Vec<[u8; 32]>) -> (r: Vec<[u8; 32]>)
    ensures
        r@ == pks@,
{
    let mut r: Vec<[u8; 32]> = Vec::new();
    let mut i: usize = 0;
    while i < pks.len()
        invariant
            i <= pks.len(),
            r@ == pks@.subrange(0, i as int),
        decreases pks.len() - i,
    {
        r.push(pks[i]);
        i = i + 1;
        assert(r@ =~= pks@.subrange(0, i as int));
    }
    assert(pks@.subrange(0, pks.len() as int) =~= pks@);
    r
}

} // verus!
