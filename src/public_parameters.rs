//! The public parameters shared by every party.
use vstd::prelude::*;
use crate::commitment::CommitBase;
use crate::group::Point;

verus! {

#[derive(Clone, Copy)]
pub struct PublicParameters {
    pub commit_base: CommitBase,
}

impl PublicParameters {
    pub open spec fn wf(&self) -> bool {
        self.commit_base.wf()
    }

    pub fn new(seed: &[u8]) -> (r: Self)
        ensures
            r.wf(),
            r.commit_base.h.bytes@ == crate::group::hashed_point_encoding(
                crate::commitment::setup_input(seed@),
            ),
    {
        PublicParameters { commit_base: CommitBase::new(seed) }
    }

    pub fn get_commit_base(&self) -> (r: &CommitBase)
        ensures
            *r == self.commit_base,
    {
        &self.commit_base
    }

    pub fn get_g(&self) -> (r: Point)
        ensures
            r == self.commit_base.g,
    {
        self.commit_base.get_g()
    }

    pub fn get_h(&self) -> (r: Point)
        ensures
            r == self.commit_base.h,
    {
        self.commit_base.get_h()
    }
}

} // verus!
