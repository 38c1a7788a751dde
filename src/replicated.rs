//! Replicated secret sharing: a secret is split into `SPLIT_LEN` additive
//! parts, and prover `i` holds the parts at positions `spec_ind(i, _)`.
use vstd::prelude::*;
use crate::group::{
    Point, Scalar, md, group_order, scalar_add, scalar_sub, identity, plus,
    lemma_md_add, lemma_md_sub, lemma_md_mul, lemma_scalar_bound, lemma_md_small,
};
use crate::commitment::CommitBase;
use crate::constants::{PROVER_NUM, SHARE_LEN, SPLIT_LEN, spec_ind, ind_arr, holds};
use crate::util::{random_scalars, scalar_zero, random_index};
use crate::bytes::extend_bytes;

verus! {

/// Sum of the values of `s`, unreduced.
pub open spec fn vals_sum(s: Seq<Scalar>) -> int
    decreases s.len(),
{
    if s.len() == 0 {
        0
    } else {
        vals_sum(s.drop_last()) + s.last().val()
    }
}

/// Sum of the logs of `s`, unreduced.
pub open spec fn logs_sum(s: Seq<Point>) -> int
    decreases s.len(),
{
    if s.len() == 0 {
        0
    } else {
        logs_sum(s.drop_last()) + s.last().log()
    }
}

/// The logs of the points of `s`.
pub open spec fn point_logs(s: Seq<Point>) -> Seq<int> {
    s.map_values(|p: Point| p.log())
}

/// Every point of `s` is a group element.
pub open spec fn all_wf(s: Seq<Point>) -> bool {
    forall|i: int| 0 <= i < s.len() ==> (#[trigger] s[i]).wf()
}

pub proof fn lemma_vals_sum_push(s: Seq<Scalar>, x: Scalar)
    ensures
        vals_sum(s.push(x)) == vals_sum(s) + x.val(),
{
    assert(s.push(x).drop_last() =~= s);
}

pub proof fn lemma_logs_sum_push(s: Seq<Point>, x: Point)
    ensures
        logs_sum(s.push(x)) == logs_sum(s) + x.log(),
{
    assert(s.push(x).drop_last() =~= s);
}

/// A copy of `v`.
pub fn copy_scalars(v: &Vec<Scalar>) -> (r: Vec<Scalar>)
    ensures
        r@ == v@,
{
    let mut r: Vec<Scalar> = Vec::new();
    let mut i: usize = 0;
    while i < v.len()
        invariant
            i <= v.len(),
            r@ == v@.subrange(0, i as int),
        decreases v.len() - i,
    {
        r.push(v[i]);
        i = i + 1;
        assert(r@ =~= v@.subrange(0, i as int));
    }
    assert(v@.subrange(0, v.len() as int) =~= v@);
    r
}

/// The reduced sum of `v`.
pub fn sum_scalars(v: &Vec<Scalar>) -> (r: Scalar)
    ensures
        r.val() == md(vals_sum(v@)),
{
    let mut sum = scalar_zero();
    let mut i: usize = 0;
    proof {
        lemma_md_small(0);
        assert(v@.subrange(0, 0) =~= Seq::<Scalar>::empty());
    }
    while i < v.len()
        invariant
            i <= v.len(),
            sum.val() == md(vals_sum(v@.subrange(0, i as int))),
        decreases v.len() - i,
    {
        let next = scalar_add(&sum, &v[i]);
        proof {
            let pre = v@.subrange(0, i as int);
            assert(v@.subrange(0, i + 1) =~= pre.push(v@[i as int]));
            lemma_vals_sum_push(pre, v@[i as int]);
            lemma_md_add(vals_sum(pre), v@[i as int].val());
            lemma_scalar_bound(v@[i as int]);
        }
        sum = next;
        i = i + 1;
    }
    assert(v@.subrange(0, v.len() as int) =~= v@);
    sum
}

/// The value of split position `j` of the secret `s`, drawn with the random
/// parts `rs` (`SPLIT_LEN - 1` of them): the last part makes the sum `s`.
pub open spec fn split_value(s: int, rs: Seq<int>, j: int) -> int {
    if j < SPLIT_LEN - 1 {
        rs[j]
    } else {
        md(s - int_sum(rs))
    }
}

/// Sum of a sequence of integers.
pub open spec fn int_sum(s: Seq<int>) -> int
    decreases s.len(),
{
    if s.len() == 0 {
        0
    } else {
        int_sum(s.drop_last()) + s.last()
    }
}

/// The values of `s`.
pub open spec fn vals(s: Seq<Scalar>) -> Seq<int> {
    s.map_values(|x: Scalar| x.val())
}

pub proof fn lemma_vals_sum_is_int_sum(s: Seq<Scalar>)
    ensures
        vals_sum(s) == int_sum(vals(s)),
    decreases s.len(),
{
    if s.len() > 0 {
        assert(vals(s).drop_last() =~= vals(s.drop_last()));
        lemma_vals_sum_is_int_sum(s.drop_last());
    }
}

/// A secret and its split into additive parts, each with a blinding.
#[derive(Clone)]
pub struct ReplicaSecret {
    pub s: Scalar,
    pub splits: Vec<Scalar>,
    pub blindings: Vec<Scalar>,
    pub r_sum: Scalar,
}

/// What one prover holds of a secret: the parts and blindings at its
/// positions.
#[derive(Clone)]
pub struct ReplicaShare {
    pub ind: usize,
    pub share: Vec<Scalar>,
    pub blindings: Vec<Scalar>,
}

/// The commitments to the parts of a secret.
#[derive(Clone)]
pub struct ReplicaCommitment {
    pub com: Vec<Point>,
}

impl ReplicaSecret {
    /// The parts sum to the secret and `r_sum` is the sum of the blindings.
    pub open spec fn wf(&self) -> bool {
        &&& self.splits.len() == SPLIT_LEN
        &&& self.blindings.len() == SPLIT_LEN
        &&& md(vals_sum(self.splits@)) == self.s.val()
        &&& self.r_sum.val() == md(vals_sum(self.blindings@))
    }

    /// The split of `s` drawn with the parts `rand_splits` (all but the last)
    /// and the blindings `blindings`.
    pub fn from_randomness(s: Scalar, rand_splits: &Vec<Scalar>, blindings: &Vec<Scalar>) -> (r:
        Self)
        requires
            rand_splits.len() == SPLIT_LEN - 1,
            blindings.len() == SPLIT_LEN,
        ensures
            r.wf(),
            r.s == s,
            r.blindings@ == blindings@,
            forall|j: int|
                0 <= j < SPLIT_LEN ==> (#[trigger] r.splits@[j]).val() == split_value(
                    s.val(),
                    vals(rand_splits@),
                    j,
                ),
    {
        let mut splits = copy_scalars(rand_splits);
        let sum = sum_scalars(rand_splits);
        let last = scalar_sub(&s, &sum);
        splits.push(last);
        let bl = copy_scalars(blindings);
        let r_sum = sum_scalars(blindings);
        proof {
            assert(splits@ =~= rand_splits@.push(last));
            lemma_vals_sum_push(rand_splits@, last);
            lemma_vals_sum_is_int_sum(rand_splits@);
            let t = vals_sum(rand_splits@);
            lemma_md_sub(s.val(), t);
            lemma_md_add(t, s.val() - t);
            lemma_scalar_bound(s);
            assert(t + (s.val() - t) == s.val());
            assert forall|j: int| 0 <= j < SPLIT_LEN implies (#[trigger] splits@[j]).val()
                == split_value(s.val(), vals(rand_splits@), j) by {
                if j < SPLIT_LEN - 1 {
                    assert(splits@[j] == rand_splits@[j]);
                }
            }
        }
        ReplicaSecret { s, splits, blindings: bl, r_sum }
    }

    /// A fresh random split of `s`.
    pub fn new(s: Scalar) -> (r: Self)
        ensures
            r.wf(),
            r.s == s,
    {
        let splits_vec = random_scalars(SPLIT_LEN - 1);
        let blindings_vec = random_scalars(SPLIT_LEN);
        Self::from_randomness(s, &splits_vec, &blindings_vec)
    }

    /// The split of zero into zero parts with zero blindings.
    pub fn new_zero() -> (r: Self)
        ensures
            r.wf(),
            r.s.val() == 0,
            forall|j: int| 0 <= j < SPLIT_LEN ==> (#[trigger] r.splits@[j]).val() == 0,
            forall|j: int| 0 <= j < SPLIT_LEN ==> (#[trigger] r.blindings@[j]).val() == 0,
    {
        let mut splits: Vec<Scalar> = Vec::new();
        let mut blindings: Vec<Scalar> = Vec::new();
        let mut i: usize = 0;
        while i < SPLIT_LEN
            invariant
                i <= SPLIT_LEN,
                splits.len() == i,
                blindings.len() == i,
                forall|j: int| 0 <= j < i ==> (#[trigger] splits@[j]).val() == 0,
                forall|j: int| 0 <= j < i ==> (#[trigger] blindings@[j]).val() == 0,
                vals_sum(splits@) == 0,
                vals_sum(blindings@) == 0,
            decreases SPLIT_LEN - i,
        {
            let z = scalar_zero();
            proof {
                lemma_vals_sum_push(splits@, z);
                lemma_vals_sum_push(blindings@, z);
            }
            splits.push(z);
            blindings.push(z);
            i = i + 1;
        }
        proof {
            lemma_md_small(0);
        }
        ReplicaSecret { s: scalar_zero(), splits, blindings, r_sum: scalar_zero() }
    }

    pub fn get_s(&self) -> (r: Scalar)
        ensures
            r == self.s,
    {
        self.s
    }

    pub fn get_splits(&self) -> (r: Vec<Scalar>)
        ensures
            r@ == self.splits@,
    {
        copy_scalars(&self.splits)
    }

    pub fn get_sum_r(&self) -> (r: Scalar)
        ensures
            r == self.r_sum,
    {
        self.r_sum
    }

    /// The share of prover `ind`.
    pub fn get_share(&self, ind: usize) -> (r: ReplicaShare)
        requires
            self.wf(),
            ind < PROVER_NUM,
        ensures
            r.ind == ind,
            r.is_share_of(*self),
    {
        let mut share: Vec<Scalar> = Vec::new();
        let mut blindings: Vec<Scalar> = Vec::new();
        let mut j: usize = 0;
        while j < SHARE_LEN
            invariant
                self.wf(),
                ind < PROVER_NUM,
                j <= SHARE_LEN,
                share.len() == j,
                blindings.len() == j,
                forall|l: int|
                    0 <= l < j ==> #[trigger] share@[l] == self.splits@[spec_ind(ind as int, l)],
                forall|l: int|
                    0 <= l < j ==> #[trigger] blindings@[l] == self.blindings@[spec_ind(
                        ind as int,
                        l,
                    )],
            decreases SHARE_LEN - j,
        {
            let i = ind_arr(ind, j);
            share.push(self.splits[i]);
            blindings.push(self.blindings[i]);
            j = j + 1;
        }
        ReplicaShare { ind, share, blindings }
    }

    /// The commitment to each part with its blinding.
    pub fn commit(&self, base: CommitBase) -> (coms: Vec<Point>)
        requires
            self.wf(),
            base.wf(),
        ensures
            coms.len() == SPLIT_LEN,
            all_wf(coms@),
            forall|j: int|
                0 <= j < SPLIT_LEN ==> (#[trigger] coms@[j]).log() == base.com_log(
                    self.splits@[j].val(),
                    self.blindings@[j].val(),
                ),
    {
        let mut coms: Vec<Point> = Vec::new();
        let mut i: usize = 0;
        while i < SPLIT_LEN
            invariant
                self.wf(),
                base.wf(),
                i <= SPLIT_LEN,
                coms.len() == i,
                all_wf(coms@),
                forall|j: int|
                    0 <= j < i ==> (#[trigger] coms@[j]).log() == base.com_log(
                        self.splits@[j].val(),
                        self.blindings@[j].val(),
                    ),
            decreases SPLIT_LEN - i,
        {
            coms.push(base.commit(self.splits[i], self.blindings[i]));
            i = i + 1;
        }
        coms
    }
}

impl ReplicaShare {
    /// Owner in range and one value and blinding per slot.
    pub open spec fn wf(&self) -> bool {
        &&& self.ind < PROVER_NUM
        &&& self.share.len() == SHARE_LEN
        &&& self.blindings.len() == SHARE_LEN
    }

    /// This is the share of prover `self.ind` of `sec`.
    pub open spec fn is_share_of(&self, sec: ReplicaSecret) -> bool {
        &&& self.wf()
        &&& forall|l: int|
            0 <= l < SHARE_LEN ==> #[trigger] self.share@[l] == sec.splits@[spec_ind(
                self.ind as int,
                l,
            )]
        &&& forall|l: int|
            0 <= l < SHARE_LEN ==> #[trigger] self.blindings@[l] == sec.blindings@[spec_ind(
                self.ind as int,
                l,
            )]
    }

    /// Every value and blinding opens the commitment at its position.
    pub open spec fn opens(&self, base: CommitBase, com: ReplicaCommitment) -> bool {
        forall|l: int|
            0 <= l < SHARE_LEN ==> com.com@[spec_ind(self.ind as int, l)].log() == #[trigger] base.com_log(
                self.share@[l].val(),
                self.blindings@[l].val(),
            )
    }

    /// Every value and blinding opens the commitment at its position plus
    /// the noise commitment of its slot, given by its log.
    pub open spec fn opens_with_noise(
        &self,
        base: CommitBase,
        com: ReplicaCommitment,
        noise: Seq<int>,
    ) -> bool {
        forall|l: int|
            0 <= l < SHARE_LEN ==> md(com.com@[spec_ind(self.ind as int, l)].log() + noise[l])
                == #[trigger] base.com_log(self.share@[l].val(), self.blindings@[l].val())
    }

    /// The zero share of prover `ind`.
    pub fn new_zero(ind: usize) -> (r: Self)
        ensures
            r.ind == ind,
            r.share.len() == SHARE_LEN,
            r.blindings.len() == SHARE_LEN,
            forall|l: int| 0 <= l < SHARE_LEN ==> (#[trigger] r.share@[l]).val() == 0,
            forall|l: int| 0 <= l < SHARE_LEN ==> (#[trigger] r.blindings@[l]).val() == 0,
    {
        let mut share: Vec<Scalar> = Vec::new();
        let mut blindings: Vec<Scalar> = Vec::new();
        let mut i: usize = 0;
        while i < SHARE_LEN
            invariant
                i <= SHARE_LEN,
                share.len() == i,
                blindings.len() == i,
                forall|l: int| 0 <= l < i ==> (#[trigger] share@[l]).val() == 0,
                forall|l: int| 0 <= l < i ==> (#[trigger] blindings@[l]).val() == 0,
            decreases SHARE_LEN - i,
        {
            share.push(scalar_zero());
            blindings.push(scalar_zero());
            i = i + 1;
        }
        ReplicaShare { ind, share, blindings }
    }

    /// A copy with the same owner, values and blindings.
    pub fn copy(&self) -> (r: Self)
        ensures
            r.ind == self.ind,
            r.share@ == self.share@,
            r.blindings@ == self.blindings@,
    {
        ReplicaShare {
            ind: self.ind,
            share: copy_scalars(&self.share),
            blindings: copy_scalars(&self.blindings),
        }
    }

    /// Whether the share has an owner in range and one value and blinding
    /// per slot.
    pub fn is_wf(&self) -> (r: bool)
        ensures
            r == self.wf(),
    {
        self.ind < PROVER_NUM && self.share.len() == SHARE_LEN && self.blindings.len() == SHARE_LEN
    }

    pub fn get_ind(&self) -> (r: usize)
        ensures
            r == self.ind,
    {
        self.ind
    }

    pub fn get_share(&self) -> (r: Vec<Scalar>)
        ensures
            r@ == self.share@,
    {
        copy_scalars(&self.share)
    }

    /// Whether each value and blinding opens the commitment at its position.
    pub fn check_com(&self, base: &CommitBase, com: ReplicaCommitment) -> (r: bool)
        requires
            self.wf(),
            base.wf(),
            com.wf(),
        ensures
            r == self.opens(*base, com),
    {
        let mut i: usize = 0;
        while i < SHARE_LEN
            invariant
                self.wf(),
                base.wf(),
                com.wf(),
                i <= SHARE_LEN,
                forall|l: int|
                    0 <= l < i ==> com.com@[spec_ind(self.ind as int, l)].log() == #[trigger] base.com_log(
                        self.share@[l].val(),
                        self.blindings@[l].val(),
                    ),
            decreases SHARE_LEN - i,
        {
            let ind = ind_arr(self.ind, i);
            if !base.vrfy(self.share[i], self.blindings[i], com.ind_value(ind)) {
                return false;
            }
            i = i + 1;
        }
        true
    }

    /// Whether each value and blinding opens the commitment at its position
    /// plus the noise commitment of its slot.
    pub fn check_com_with_noise(
        &self,
        base: &CommitBase,
        com: ReplicaCommitment,
        noise_commitment: Vec<Point>,
    ) -> (r: bool)
        requires
            self.wf(),
            base.wf(),
            com.wf(),
            noise_commitment.len() == SHARE_LEN,
            all_wf(noise_commitment@),
        ensures
            r == self.opens_with_noise(*base, com, point_logs(noise_commitment@)),
    {
        let mut i: usize = 0;
        while i < SHARE_LEN
            invariant
                self.wf(),
                base.wf(),
                com.wf(),
                noise_commitment.len() == SHARE_LEN,
                all_wf(noise_commitment@),
                i <= SHARE_LEN,
                forall|l: int|
                    0 <= l < i ==> md(
                        com.com@[spec_ind(self.ind as int, l)].log() + noise_commitment@[l].log(),
                    ) == #[trigger] base.com_log(self.share@[l].val(), self.blindings@[l].val()),
            decreases SHARE_LEN - i,
        {
            let ind = ind_arr(self.ind, i);
            let target = plus(&com.ind_value(ind), &noise_commitment[i]);
            if !base.vrfy(self.share[i], self.blindings[i], target) {
                return false;
            }
            i = i + 1;
        }
        true
    }

    /// The share with `noise[l]` added to value `l` and `noise_proof[l]` to
    /// blinding `l`.
    pub fn add_noise(&self, noise: Vec<Scalar>, noise_proof: Vec<Scalar>) -> (r: ReplicaShare)
        requires
            self.wf(),
            noise.len() == SHARE_LEN,
            noise_proof.len() == SHARE_LEN,
        ensures
            r.wf(),
            r.ind == self.ind,
            forall|l: int|
                0 <= l < SHARE_LEN ==> (#[trigger] r.share@[l]).val() == md(
                    self.share@[l].val() + noise@[l].val(),
                ),
            forall|l: int|
                0 <= l < SHARE_LEN ==> (#[trigger] r.blindings@[l]).val() == md(
                    self.blindings@[l].val() + noise_proof@[l].val(),
                ),
    {
        let share = add_pointwise(&self.share, &noise);
        let blindings = add_pointwise(&self.blindings, &noise_proof);
        ReplicaShare { ind: self.ind, share, blindings }
    }

    /// Slot-wise sum of two shares of the same owner.
    pub fn add(&self, other: &Self) -> (r: Self)
        requires
            self.wf(),
            other.wf(),
            self.ind == other.ind,
        ensures
            r.wf(),
            r.ind == self.ind,
            forall|l: int|
                0 <= l < SHARE_LEN ==> (#[trigger] r.share@[l]).val() == md(
                    self.share@[l].val() + other.share@[l].val(),
                ),
            forall|l: int|
                0 <= l < SHARE_LEN ==> (#[trigger] r.blindings@[l]).val() == md(
                    self.blindings@[l].val() + other.blindings@[l].val(),
                ),
    {
        let share = add_pointwise(&self.share, &other.share);
        let blindings = add_pointwise(&self.blindings, &other.blindings);
        ReplicaShare { ind: self.ind, share, blindings }
    }
}

impl Default for ReplicaShare {
    /// The zero share of prover 0.
    fn default() -> (r: Self)
        ensures
            r.ind == 0,
            r.share.len() == SHARE_LEN,
            r.blindings.len() == SHARE_LEN,
            forall|l: int| 0 <= l < SHARE_LEN ==> (#[trigger] r.share@[l]).val() == 0,
            forall|l: int| 0 <= l < SHARE_LEN ==> (#[trigger] r.blindings@[l]).val() == 0,
    {
        ReplicaShare::new_zero(0)
    }
}

/// Element-wise sum of two vectors of equal length.
pub fn add_pointwise(a: &Vec<Scalar>, b: &Vec<Scalar>) -> (r: Vec<Scalar>)
    requires
        a.len() == b.len(),
    ensures
        r.len() == a.len(),
        forall|l: int| 0 <= l < a.len() ==> (#[trigger] r@[l]).val() == md(a@[l].val() + b@[l].val()),
{
    let mut r: Vec<Scalar> = Vec::new();
    let mut i: usize = 0;
    while i < a.len()
        invariant
            a.len() == b.len(),
            i <= a.len(),
            r.len() == i,
            forall|l: int| 0 <= l < i ==> (#[trigger] r@[l]).val() == md(a@[l].val() + b@[l].val()),
        decreases a.len() - i,
    {
        r.push(scalar_add(&a[i], &b[i]));
        i = i + 1;
    }
    r
}

impl ReplicaCommitment {
    /// One group element per split position.
    pub open spec fn wf(&self) -> bool {
        &&& self.com.len() == SPLIT_LEN
        &&& all_wf(self.com@)
    }

    pub fn new(com: Vec<Point>) -> (r: Self)
        requires
            com.len() == SPLIT_LEN,
        ensures
            r.com@ == com@,
    {
        ReplicaCommitment { com }
    }

    /// A copy with the same points.
    pub fn copy(&self) -> (r: Self)
        ensures
            r.com@ == self.com@,
    {
        let mut com: Vec<Point> = Vec::new();
        let mut i: usize = 0;
        while i < self.com.len()
            invariant
                i <= self.com.len(),
                com@ == self.com@.subrange(0, i as int),
            decreases self.com.len() - i,
        {
            com.push(self.com[i]);
            i = i + 1;
            assert(com@ =~= self.com@.subrange(0, i as int));
        }
        assert(self.com@.subrange(0, self.com.len() as int) =~= self.com@);
        ReplicaCommitment { com }
    }

    /// Whether there is one group element per split position.
    pub fn is_valid(&self) -> (r: bool)
        ensures
            r == self.wf(),
    {
        if self.com.len() != SPLIT_LEN {
            return false;
        }
        let mut i: usize = 0;
        while i < self.com.len()
            invariant
                i <= self.com.len(),
                forall|k: int| 0 <= k < i ==> (#[trigger] self.com@[k]).wf(),
            decreases self.com.len() - i,
        {
            if !crate::group::point_is_valid(&self.com[i]) {
                return false;
            }
            i = i + 1;
        }
        true
    }

    pub fn ind_value(&self, ind: usize) -> (r: Point)
        requires
            ind < self.com.len(),
        ensures
            r == self.com@[ind as int],
    {
        self.com[ind]
    }

    /// The sum of the commitments to the parts: a commitment to the secret.
    pub fn get_sum(&self) -> (r: Point)
        requires
            self.wf(),
        ensures
            r.wf(),
            r.log() == md(logs_sum(self.com@)),
    {
        let mut sum = identity();
        let mut i: usize = 0;
        proof {
            lemma_md_small(0);
            assert(self.com@.subrange(0, 0) =~= Seq::<Point>::empty());
        }
        while i < SPLIT_LEN
            invariant
                self.wf(),
                i <= SPLIT_LEN,
                sum.wf(),
                sum.log() == md(logs_sum(self.com@.subrange(0, i as int))),
            decreases SPLIT_LEN - i,
        {
            let next = plus(&sum, &self.com[i]);
            proof {
                let pre = self.com@.subrange(0, i as int);
                assert(self.com@.subrange(0, i + 1) =~= pre.push(self.com@[i as int]));
                lemma_logs_sum_push(pre, self.com@[i as int]);
                lemma_md_add(logs_sum(pre), self.com@[i as int].log());
                crate::group::lemma_log_bounds(self.com@[i as int]);
            }
            sum = next;
            i = i + 1;
        }
        assert(self.com@.subrange(0, SPLIT_LEN as int) =~= self.com@);
        sum
    }

    /// The commitment to the zero secret: the identity at every position.
    pub fn new_zero() -> (r: Self)
        ensures
            r.wf(),
            forall|j: int| 0 <= j < SPLIT_LEN ==> (#[trigger] r.com@[j]).log() == 0,
    {
        let mut com: Vec<Point> = Vec::new();
        let mut i: usize = 0;
        while i < SPLIT_LEN
            invariant
                i <= SPLIT_LEN,
                com.len() == i,
                all_wf(com@),
                forall|j: int| 0 <= j < i ==> (#[trigger] com@[j]).log() == 0,
            decreases SPLIT_LEN - i,
        {
            com.push(identity());
            i = i + 1;
        }
        ReplicaCommitment { com }
    }

    /// The encodings of the commitments, concatenated.
    pub fn to_bytes(&self) -> (r: Vec<u8>)
        requires
            self.wf(),
        ensures
            r@ == commitment_bytes(self.com@),
    {
        let mut bytes: Vec<u8> = Vec::new();
        let mut i: usize = 0;
        while i < SPLIT_LEN
            invariant
                self.wf(),
                i <= SPLIT_LEN,
                bytes@ == commitment_bytes(self.com@.subrange(0, i as int)),
            decreases SPLIT_LEN - i,
        {
            let c = self.com[i];
            extend_bytes(&mut bytes, c.bytes.as_slice());
            proof {
                let pre = self.com@.subrange(0, i as int);
                assert(self.com@.subrange(0, i + 1).drop_last() =~= pre);
            }
            i = i + 1;
        }
        assert(self.com@.subrange(0, SPLIT_LEN as int) =~= self.com@);
        bytes
    }

    /// Position-wise sum of two commitments.
    pub fn add(self, other: Self) -> (r: Self)
        requires
            self.wf(),
            other.wf(),
        ensures
            r.wf(),
            forall|j: int|
                0 <= j < SPLIT_LEN ==> (#[trigger] r.com@[j]).log() == md(
                    self.com@[j].log() + other.com@[j].log(),
                ),
    {
        let mut com: Vec<Point> = Vec::new();
        let mut i: usize = 0;
        while i < SPLIT_LEN
            invariant
                self.wf(),
                other.wf(),
                i <= SPLIT_LEN,
                com.len() == i,
                all_wf(com@),
                forall|j: int|
                    0 <= j < i ==> (#[trigger] com@[j]).log() == md(
                        self.com@[j].log() + other.com@[j].log(),
                    ),
            decreases SPLIT_LEN - i,
        {
            com.push(plus(&self.com[i], &other.com[i]));
            i = i + 1;
        }
        ReplicaCommitment { com }
    }
}

/// Some share of `shares` carries the value `v` at split position `j`.
pub open spec fn contributes(shares: Seq<ReplicaShare>, j: int, v: int) -> bool {
    exists|i: int, l: int|
        0 <= i < shares.len() && 0 <= l < SHARE_LEN && spec_ind(shares[i].ind as int, l) == j
            && (#[trigger] shares[i].share@[l]).val() == v
}

/// Split position `j` is held by the owner of some share of `shares`.
pub open spec fn position_held(shares: Seq<ReplicaShare>, j: int) -> bool {
    exists|i: int| 0 <= i < shares.len() && #[trigger] holds(shares[i].ind as int, j)
}

/// Every split position is held by the owner of some share of `shares`.
pub open spec fn covers(shares: Seq<ReplicaShare>) -> bool {
    forall|j: int| 0 <= j < SPLIT_LEN ==> #[trigger] position_held(shares, j)
}

/// `x` is what reconstruction yields when it takes, for each position, the
/// value of one share that holds it.
pub open spec fn recon_outcome(shares: Seq<ReplicaShare>, x: int) -> bool {
    exists|vs: Seq<int>|
        vs.len() == SPLIT_LEN && (forall|j: int|
            0 <= j < SPLIT_LEN ==> #[trigger] contributes(shares, j, vs[j])) && x == md(
            int_sum(vs),
        )
}

/// The values that `shares` carry at split position `j`.
pub fn candidates(shares: &Vec<ReplicaShare>, j: usize) -> (r: Vec<Scalar>)
    requires
        forall|i: int| 0 <= i < shares.len() ==> (#[trigger] shares@[i]).wf(),
    ensures
        forall|k: int| 0 <= k < r.len() ==> contributes(shares@, j as int, (#[trigger] r@[k]).val()),
        r.len() == 0 <==> !position_held(shares@, j as int),
{
    let mut r: Vec<Scalar> = Vec::new();
    let mut i: usize = 0;
    while i < shares.len()
        invariant
            forall|i: int| 0 <= i < shares.len() ==> (#[trigger] shares@[i]).wf(),
            i <= shares.len(),
            forall|k: int| 0 <= k < r.len() ==> contributes(shares@, j as int, (#[trigger] r@[k]).val()),
            r.len() == 0 <==> !exists|i2: int| 0 <= i2 < i && #[trigger] holds(shares@[i2].ind as int, j as int),
        decreases shares.len() - i,
    {
        let mut l: usize = 0;
        let ghost before = r.len();
        while l < SHARE_LEN
            invariant
                forall|i: int| 0 <= i < shares.len() ==> (#[trigger] shares@[i]).wf(),
                i < shares.len(),
                l <= SHARE_LEN,
                before <= r.len(),
                forall|k: int| 0 <= k < r.len() ==> contributes(shares@, j as int, (#[trigger] r@[k]).val()),
                before == 0 ==> (r.len() == 0 <==> forall|l2: int| 0 <= l2 < l ==> #[trigger] spec_ind(shares@[i as int].ind as int, l2) != j),
                before > 0 ==> r.len() > 0,
            decreases SHARE_LEN - l,
        {
            let sh = &shares[i];
            if ind_arr(sh.ind, l) == j {
                let v = sh.share[l];
                proof {
                    assert(shares@[i as int].share@[l as int] == v);
                }
                r.push(v);
            }
            l = l + 1;
        }
        proof {
            if r.len() == 0 {
                assert forall|i2: int| 0 <= i2 < i + 1 implies !#[trigger] holds(shares@[i2].ind as int, j as int) by {
                    if i2 == i {
                        assert(forall|l2: int| 0 <= l2 < SHARE_LEN ==> #[trigger] spec_ind(shares@[i as int].ind as int, l2) != j);
                    }
                }
            } else if before == 0 {
                let l2 = choose|l2: int| 0 <= l2 < SHARE_LEN && #[trigger] spec_ind(shares@[i as int].ind as int, l2) == j;
                assert(holds(shares@[i as int].ind as int, j as int));
            }
        }
        i = i + 1;
    }
    r
}

/// Reconstruction of the secret from shares: for each split position one of
/// the values held for it, chosen at random, summed. `None` when some
/// position is held by no share.
pub fn recon_shares(shares: Vec<ReplicaShare>) -> (r: Option<Scalar>)
    requires
        forall|i: int| 0 <= i < shares.len() ==> (#[trigger] shares@[i]).wf(),
    ensures
        r.is_some() == covers(shares@),
        r.is_some() ==> recon_outcome(shares@, r.unwrap().val()),
{
    let mut sum = scalar_zero();
    let ghost mut picked: Seq<int> = Seq::empty();
    let mut j: usize = 0;
    proof {
        lemma_md_small(0);
    }
    while j < SPLIT_LEN
        invariant
            forall|i: int| 0 <= i < shares.len() ==> (#[trigger] shares@[i]).wf(),
            j <= SPLIT_LEN,
            picked.len() == j,
            forall|jj: int| 0 <= jj < j ==> #[trigger] contributes(shares@, jj, picked[jj]),
            forall|jj: int| 0 <= jj < j ==> #[trigger] position_held(shares@, jj),
            sum.val() == md(int_sum(picked)),
        decreases SPLIT_LEN - j,
    {
        let cands = candidates(&shares, j);
        if cands.len() == 0 {
            return None;
        }
        let k = random_index(cands.len());
        let v = cands[k];
        let next = scalar_add(&sum, &v);
        proof {
            assert(contributes(shares@, j as int, v.val()));
            let np = picked.push(v.val());
            assert(np.drop_last() =~= picked);
            lemma_md_add(int_sum(picked), v.val());
            lemma_scalar_bound(v);
            picked = np;
        }
        sum = next;
        j = j + 1;
    }
    Some(sum)
}

/// Splitting, then reconstructing from honest shares, gives the secret back.
pub proof fn lemma_rss_correct(sec: ReplicaSecret, shares: Seq<ReplicaShare>, x: int)
    requires
        sec.wf(),
        forall|i: int| 0 <= i < shares.len() ==> (#[trigger] shares[i]).is_share_of(sec),
        recon_outcome(shares, x),
    ensures
        x == sec.s.val(),
{
    let vs = choose|vs: Seq<int>|
        vs.len() == SPLIT_LEN && (forall|j: int|
            0 <= j < SPLIT_LEN ==> #[trigger] contributes(shares, j, vs[j])) && x == md(
            int_sum(vs),
        );
    assert forall|j: int| 0 <= j < SPLIT_LEN implies vs[j] == vals(sec.splits@)[j] by {
        assert(contributes(shares, j, vs[j]));
        let (i, l) = choose|i: int, l: int|
            0 <= i < shares.len() && 0 <= l < SHARE_LEN && spec_ind(shares[i].ind as int, l) == j
                && (#[trigger] shares[i].share@[l]).val() == vs[j];
        assert(shares[i].is_share_of(sec));
        assert(shares[i].share@[l] == sec.splits@[spec_ind(shares[i].ind as int, l)]);
    }
    assert(vs =~= vals(sec.splits@));
    lemma_vals_sum_is_int_sum(sec.splits@);
}

/// The randomness of a split of `s` with the free part at position `j0`
/// moved by `d` (the last part has no randomness of its own).
pub open spec fn shift_randomness(rs: Seq<int>, j0: int, d: int) -> Seq<int> {
    if j0 < SPLIT_LEN - 1 {
        rs.update(j0, md(rs[j0] + d))
    } else {
        rs
    }
}

pub proof fn lemma_int_sum_update(rs: Seq<int>, k: int, v: int)
    requires
        0 <= k < rs.len(),
    ensures
        int_sum(rs.update(k, v)) == int_sum(rs) - rs[k] + v,
    decreases rs.len(),
{
    if k < rs.len() - 1 {
        assert(rs.update(k, v).drop_last() =~= rs.drop_last().update(k, v));
        lemma_int_sum_update(rs.drop_last(), k, v);
    } else {
        assert(rs.update(k, v).drop_last() =~= rs.drop_last());
    }
}

/// Threshold privacy. For any two secrets `s` and `s2` and any split
/// position `j0`, shifting the randomness of the split of `s` is a bijection
/// (undone by the opposite shift) that yields the split of `s2` with the
/// same part at every position but `j0`. A prover set that does not hold
/// `j0` therefore sees the same shares, with the same probability, whichever
/// secret was split.
pub proof fn lemma_rss_privacy(s: int, s2: int, rs: Seq<int>, j0: int)
    requires
        rs.len() == SPLIT_LEN - 1,
        forall|k: int| 0 <= k < rs.len() ==> 0 <= #[trigger] rs[k] < group_order(),
        0 <= j0 < SPLIT_LEN,
    ensures
        forall|j: int|
            0 <= j < SPLIT_LEN && j != j0 ==> split_value(s2, shift_randomness(rs, j0, s2 - s), j)
                == #[trigger] split_value(s, rs, j),
        forall|i: int, l: int|
            0 <= i < PROVER_NUM && 0 <= l < SHARE_LEN && !holds(i, j0) ==> split_value(
                s2,
                shift_randomness(rs, j0, s2 - s),
                #[trigger] spec_ind(i, l),
            ) == split_value(s, rs, spec_ind(i, l)),
        shift_randomness(shift_randomness(rs, j0, s2 - s), j0, s - s2) == rs,
{
    let d = s2 - s;
    let rs2 = shift_randomness(rs, j0, d);
    if j0 < SPLIT_LEN - 1 {
        lemma_int_sum_update(rs, j0, md(rs[j0] + d));
        let t = int_sum(rs);
        // s2 - (t - rs[j0] + md(rs[j0] + d)) has the residue of s - t
        lemma_md_sub(s2 - t + rs[j0], rs[j0] + d);
        assert(s2 - int_sum(rs2) == (s2 - t + rs[j0]) - md(rs[j0] + d));
        assert((s2 - t + rs[j0]) - (rs[j0] + d) == s - t);
        // shifting back
        lemma_md_add(rs[j0] + d, s - s2);
        assert(rs[j0] + d + (s - s2) == rs[j0]);
        lemma_md_small(rs[j0]);
        assert(shift_randomness(rs2, j0, s - s2) =~= rs);
    }
    assert forall|i: int, l: int|
        0 <= i < PROVER_NUM && 0 <= l < SHARE_LEN && !holds(i, j0) implies split_value(
            s2,
            shift_randomness(rs, j0, s2 - s),
            #[trigger] spec_ind(i, l),
        ) == split_value(s, rs, spec_ind(i, l)) by {
        if spec_ind(i, l) == j0 {
            assert(holds(i, j0));
        }
    }
}

/// Sum over `shares` of the values in slot `l`.
pub open spec fn slot_sum(shares: Seq<ReplicaShare>, l: int) -> int
    decreases shares.len(),
{
    if shares.len() == 0 {
        0
    } else {
        slot_sum(shares.drop_last(), l) + shares.last().share@[l].val()
    }
}

/// Sum over `secrets` of their parts at position `j`.
pub open spec fn part_sum(secrets: Seq<ReplicaSecret>, j: int) -> int
    decreases secrets.len(),
{
    if secrets.len() == 0 {
        0
    } else {
        part_sum(secrets.drop_last(), j) + secrets.last().splits@[j].val()
    }
}

/// Sum of the secrets' values.
pub open spec fn secret_sum(secrets: Seq<ReplicaSecret>) -> int
    decreases secrets.len(),
{
    if secrets.len() == 0 {
        0
    } else {
        secret_sum(secrets.drop_last()) + secrets.last().s.val()
    }
}

/// Sum of the parts of all positions.
pub open spec fn all_parts_sum(secrets: Seq<ReplicaSecret>) -> int {
    part_sum(secrets, 0) + part_sum(secrets, 1) + part_sum(secrets, 2)
}

/// Share additivity. The slot-wise sum of the shares that one prover holds
/// of several secrets is that prover's share of the position-wise sum of the
/// splits, and those summed parts add up to the sum of the secrets.
pub proof fn lemma_share_additivity(secrets: Seq<ReplicaSecret>, shares: Seq<ReplicaShare>, o: int)
    requires
        shares.len() == secrets.len(),
        forall|i: int| 0 <= i < secrets.len() ==> (#[trigger] secrets[i]).wf(),
        forall|i: int|
            0 <= i < shares.len() ==> (#[trigger] shares[i]).is_share_of(secrets[i]) && shares[i].ind
                == o,
    ensures
        forall|l: int|
            0 <= l < SHARE_LEN ==> #[trigger] slot_sum(shares, l) == part_sum(secrets, spec_ind(o, l)),
        md(all_parts_sum(secrets)) == md(secret_sum(secrets)),
    decreases secrets.len(),
{
    if secrets.len() > 0 {
        let n = secrets.len() - 1;
        lemma_share_additivity(secrets.drop_last(), shares.drop_last(), o);
        assert forall|l: int| 0 <= l < SHARE_LEN implies #[trigger] slot_sum(shares, l) == part_sum(
            secrets,
            spec_ind(o, l),
        ) by {
            assert(shares[n].is_share_of(secrets[n]));
            assert(shares.drop_last() =~= shares.subrange(0, n));
            assert(slot_sum(shares.drop_last(), l) == part_sum(secrets.drop_last(), spec_ind(o, l)));
        }
        let last = secrets[n];
        let pre = secrets.drop_last();
        assert(last.splits@.len() == 3);
        assert(last.splits@.drop_last().drop_last().drop_last() =~= Seq::<Scalar>::empty());
        assert(vals_sum(last.splits@) == last.splits@[0].val() + last.splits@[1].val()
            + last.splits@[2].val()) by {
            let s = last.splits@;
            let s1 = s.drop_last();
            let s2 = s1.drop_last();
            assert(vals_sum(s2.drop_last()) == 0);
            assert(vals_sum(s2) == vals_sum(s2.drop_last()) + s[0].val());
            assert(vals_sum(s1) == vals_sum(s2) + s[1].val());
            assert(vals_sum(s) == vals_sum(s1) + s[2].val());
        }
        assert(all_parts_sum(secrets) == all_parts_sum(pre) + vals_sum(last.splits@));
        lemma_md_add(all_parts_sum(pre), vals_sum(last.splits@));
        lemma_md_add(secret_sum(pre), last.s.val());
        lemma_md_add(all_parts_sum(pre), last.s.val());
        lemma_md_add(secret_sum(pre), vals_sum(last.splits@));
        lemma_scalar_bound(last.s);
        lemma_md_add(md(all_parts_sum(pre)), vals_sum(last.splits@));
    } else {
    }
}

/// Commitments to the parts, summed, commit to the sum of the parts with the
/// sum of the blindings.
pub proof fn lemma_commitment_sum(base: CommitBase, coms: Seq<Point>, parts: Seq<Scalar>, bls: Seq<Scalar>)
    requires
        base.wf(),
        coms.len() == parts.len(),
        coms.len() == bls.len(),
        forall|j: int|
            0 <= j < coms.len() ==> (#[trigger] coms[j]).log() == base.com_log(parts[j].val(), bls[j].val()),
    ensures
        md(logs_sum(coms)) == base.com_log(vals_sum(parts), vals_sum(bls)),
    decreases coms.len(),
{
    if coms.len() == 0 {
        lemma_md_small(0);
        assert(base.g.log() * 0 + base.h.log() * 0 == 0) by (nonlinear_arith);
    } else {
        let n = coms.len() - 1;
        lemma_commitment_sum(base, coms.drop_last(), parts.drop_last(), bls.drop_last());
        let a = logs_sum(coms.drop_last());
        lemma_md_add(a, coms[n].log());
        crate::commitment::lemma_commitment_homomorphism(
            base,
            vals_sum(parts.drop_last()),
            vals_sum(bls.drop_last()),
            parts[n].val(),
            bls[n].val(),
        );
        crate::group::lemma_log_bounds(base.g);
        lemma_md_add(md(a), coms[n].log());
    }
}

/// A commitment depends on its message and blinding only through their
/// residues.
pub proof fn lemma_com_log_md(base: CommitBase, m: int, r: int)
    ensures
        base.com_log(md(m), md(r)) == base.com_log(m, r),
{
    let g = base.g.log();
    let h = base.h.log();
    lemma_md_mul(g, m);
    lemma_md_mul(h, r);
    lemma_md_add(g * md(m), h * md(r));
    lemma_md_add(g * m, h * r);
    crate::group::lemma_md_mul(g, m);
    crate::group::lemma_md_mul(h, r);
    assert(md(md(g * md(m)) + md(h * md(r))) == md(md(g * m) + md(h * r)));
}

/// The encodings of `coms`, concatenated.
pub open spec fn commitment_bytes(coms: Seq<Point>) -> Seq<u8>
    decreases coms.len(),
{
    if coms.len() == 0 {
        Seq::empty()
    } else {
        commitment_bytes(coms.drop_last()) + coms.last().bytes@
    }
}

} // verus!
