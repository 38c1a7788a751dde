//! A commit-then-reveal public coin among the provers: every prover commits
//! to a scalar in turn, then they reveal in reverse order; the coin is the
//! sum of the revealed scalars.
use vstd::prelude::*;
use crate::constants::PROVER_NUM;
use crate::group::{Point, Scalar, md, point_is_valid, scalar_add, lemma_md_add, lemma_md_small, lemma_scalar_bound};
use crate::public_parameters::PublicParameters;
use crate::util::scalar_zero;

verus! {

/// Sum of the values of the revealed scalars, unreduced (absent ones count 0).
pub open spec fn revealed_sum(ms: Seq<Option<Scalar>>) -> int
    decreases ms.len(),
{
    if ms.len() == 0 {
        0
    } else {
        revealed_sum(ms.drop_last()) + match ms.last() {
            Some(m) => m.val(),
            None => 0,
        }
    }
}

pub struct MorraBroadCast {
    pub pp: PublicParameters,
    pub coms: Vec<Option<Point>>,
    pub ms: Vec<Option<Scalar>>,
    pub rs: Vec<Option<Scalar>>,
    pub round_com: usize,
    pub round_reveal: usize,
}

impl MorraBroadCast {
    /// Commitments are made in order; the committed ones are group elements.
    pub open spec fn wf(&self) -> bool {
        &&& self.pp.wf()
        &&& self.coms.len() == PROVER_NUM
        &&& self.ms.len() == PROVER_NUM
        &&& self.rs.len() == PROVER_NUM
        &&& self.round_com <= PROVER_NUM
        &&& self.round_reveal < PROVER_NUM
        &&& forall|i: int| 0 <= i < PROVER_NUM ==> ((#[trigger] self.coms@[i]).is_some() <==> i < self.round_com)
        &&& forall|i: int| 0 <= i < PROVER_NUM && self.coms@[i].is_some() ==> (#[trigger] self.coms@[i]).unwrap().wf()
    }

    /// Nothing committed or revealed; reveals start from the last prover.
    pub fn new(pp: PublicParameters) -> (r: Self)
        requires
            pp.wf(),
        ensures
            r.wf(),
            r.round_com == 0,
            r.round_reveal == PROVER_NUM - 1,
            forall|i: int| 0 <= i < PROVER_NUM ==> (#[trigger] r.ms@[i]).is_none(),
    {
        let mut coms: Vec<Option<Point>> = Vec::new();
        let mut ms: Vec<Option<Scalar>> = Vec::new();
        let mut rs: Vec<Option<Scalar>> = Vec::new();
        let mut i: usize = 0;
        while i < PROVER_NUM
            invariant
                i <= PROVER_NUM,
                coms.len() == i,
                ms.len() == i,
                rs.len() == i,
                forall|k: int| 0 <= k < i ==> (#[trigger] coms@[k]).is_none(),
                forall|k: int| 0 <= k < i ==> (#[trigger] ms@[k]).is_none(),
            decreases PROVER_NUM - i,
        {
            coms.push(None);
            ms.push(None);
            rs.push(None);
            i = i + 1;
        }
        MorraBroadCast { pp, coms, ms, rs, round_com: 0, round_reveal: PROVER_NUM - 1 }
    }

    /// Records `com` for prover `prover_id` when it is that prover's turn
    /// to commit and `com` is a group element; otherwise nothing changes.
    pub fn commit(&mut self, prover_id: usize, com: Point)
        requires
            old(self).wf(),
        ensures
            final(self).wf(),
            final(self).ms@ == old(self).ms@,
            final(self).round_reveal == old(self).round_reveal,
            if prover_id == old(self).round_com && prover_id < PROVER_NUM && com.wf() {
                &&& final(self).coms@ == old(self).coms@.update(prover_id as int, Some(com))
                &&& final(self).round_com == old(self).round_com + 1
            } else {
                &&& final(self).coms@ == old(self).coms@
                &&& final(self).round_com == old(self).round_com
            },
    {
        if prover_id != self.round_com || prover_id >= PROVER_NUM || !point_is_valid(&com) {
            return;
        }
        self.coms.set(prover_id, Some(com));
        self.round_com = self.round_com + 1;
    }

    /// Records prover `prover_id`'s opening `(m, r)` when every prover has
    /// committed, it is that prover's turn to reveal, it has not revealed
    /// yet and the opening matches its commitment; otherwise nothing changes.
    pub fn reveal_opening(&mut self, prover_id: usize, m: Scalar, r: Scalar)
        requires
            old(self).wf(),
        ensures
            final(self).wf(),
            final(self).coms@ == old(self).coms@,
            final(self).round_com == old(self).round_com,
            ({
                let accepted = old(self).round_com == PROVER_NUM && prover_id == old(self).round_reveal
                    && old(self).ms@[prover_id as int].is_none() && old(self).coms@[prover_id as int].unwrap().log()
                    == old(self).pp.commit_base.com_log(m.val(), r.val());
                if accepted {
                    &&& final(self).ms@ == old(self).ms@.update(prover_id as int, Some(m))
                    &&& final(self).rs@ == old(self).rs@.update(prover_id as int, Some(r))
                    &&& final(self).round_reveal == if prover_id > 0 { prover_id - 1 } else { 0 }
                } else {
                    &&& final(self).ms@ == old(self).ms@
                    &&& final(self).rs@ == old(self).rs@
                    &&& final(self).round_reveal == old(self).round_reveal
                }
            }),
    {
        if self.round_com != PROVER_NUM || prover_id != self.round_reveal {
            return;
        }
        if self.ms[prover_id].is_some() {
            return;
        }
        let com = match self.coms[prover_id] {
            Some(c) => c,
            None => {
                return;
            },
        };
        if !self.pp.get_commit_base().vrfy(m, r, com) {
            return;
        }
        self.ms.set(prover_id, Some(m));
        self.rs.set(prover_id, Some(r));
        if self.round_reveal > 0 {
            self.round_reveal = self.round_reveal - 1;
        }
    }

    /// The coin: the sum of the revealed scalars once every prover has
    /// revealed, `None` before.
    pub fn get_morra_scalar(&self) -> (r: Option<Scalar>)
        requires
            self.ms.len() == PROVER_NUM,
        ensures
            r.is_some() == (forall|i: int| 0 <= i < PROVER_NUM ==> (#[trigger] self.ms@[i]).is_some()),
            r.is_some() ==> r.unwrap().val() == md(revealed_sum(self.ms@)),
    {
        let mut morra_scalar = scalar_zero();
        let mut i: usize = 0;
        proof {
            lemma_md_small(0);
            assert(self.ms@.subrange(0, 0) =~= Seq::<Option<Scalar>>::empty());
        }
        while i < PROVER_NUM
            invariant
                self.ms.len() == PROVER_NUM,
                i <= PROVER_NUM,
                forall|k: int| 0 <= k < i ==> (#[trigger] self.ms@[k]).is_some(),
                morra_scalar.val() == md(revealed_sum(self.ms@.subrange(0, i as int))),
            decreases PROVER_NUM - i,
        {
            match self.ms[i] {
                Some(m) => {
                    let next = scalar_add(&morra_scalar, &m);
                    proof {
                        let pre = self.ms@.subrange(0, i as int);
                        assert(self.ms@.subrange(0, i + 1).drop_last() =~= pre);
                        lemma_md_add(revealed_sum(pre), m.val());
                        lemma_scalar_bound(m);
                    }
                    morra_scalar = next;
                },
                None => {
                    return None;
                },
            }
            i = i + 1;
        }
        assert(self.ms@.subrange(0, PROVER_NUM as int) =~= self.ms@);
        Some(morra_scalar)
    }
}

} // verus!
