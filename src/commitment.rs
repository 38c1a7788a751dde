//! Pedersen commitments `Com(m, r) = g·m + h·r`.
use vstd::prelude::*;
use vstd::string::StringSliceAdditionalSpecFns;
use vstd::arithmetic::div_mod::*;
use vstd::arithmetic::mul::*;
use crate::group::{
    Point, Scalar, md, hashed_point_encoding, plus, times, base_mul, point_eq,
    hash_to_point, lemma_md_add,
};
use crate::bytes::extend_bytes;
use crate::util::scalar_one;
use crate::DST_ROBUST_DP_PUBLIC_PARAMS_GENERATION;

verus! {

/// The two generators of the commitment scheme.
#[derive(Clone, Copy)]
pub struct CommitBase {
    pub g: Point,
    pub h: Point,
}

/// The bytes hashed to the second generator.
pub open spec fn setup_input(seed: Seq<u8>) -> Seq<u8> {
    DST_ROBUST_DP_PUBLIC_PARAMS_GENERATION.spec_bytes() + seed
}

impl CommitBase {
    /// `g` is the base point and `h` a group element.
    pub open spec fn wf(&self) -> bool {
        &&& self.g.wf()
        &&& self.g.log() == 1
        &&& self.h.wf()
    }

    /// The discrete log of `Com(m, r)`.
    pub open spec fn com_log(&self, m: int, r: int) -> int {
        md(self.g.log() * m + self.h.log() * r)
    }

    /// `g` is the base point; `h` is hashed from the setup tag and `seed`.
    pub fn new(seed: &[u8]) -> (r: Self)
        ensures
            r.wf(),
            r.h.bytes@ == hashed_point_encoding(setup_input(seed@)),
    {
        let mut input: Vec<u8> = Vec::new();
        extend_bytes(&mut input, DST_ROBUST_DP_PUBLIC_PARAMS_GENERATION.as_bytes());
        extend_bytes(&mut input, seed);
        let h = hash_to_point(input.as_slice());
        let one = scalar_one();
        let g = base_mul(&one);
        CommitBase { g, h }
    }

    pub fn get_g(&self) -> (r: Point)
        ensures
            r == self.g,
    {
        self.g
    }

    pub fn get_h(&self) -> (r: Point)
        ensures
            r == self.h,
    {
        self.h
    }

    /// `g·message + h·blinding`.
    pub fn commit(&self, message: Scalar, blinding: Scalar) -> (c: Point)
        requires
            self.wf(),
        ensures
            c.wf(),
            c.log() == self.com_log(message.val(), blinding.val()),
    {
        let gm = times(&self.g, &message);
        let hr = times(&self.h, &blinding);
        let c = plus(&gm, &hr);
        proof {
            let a = self.g.log() * message.val();
            let b = self.h.log() * blinding.val();
            lemma_md_add(a, b);
        }
        c
    }

    /// Whether `com` opens to `(message, blinding)`.
    pub fn vrfy(&self, message: Scalar, blinding: Scalar, com: Point) -> (r: bool)
        requires
            self.wf(),
            com.wf(),
        ensures
            r == (com.log() == self.com_log(message.val(), blinding.val())),
    {
        let c = self.commit(message, blinding);
        point_eq(&com, &c)
    }
}

/// Adding two commitments commits to the sums of the messages and of the
/// blindings.
pub proof fn lemma_commitment_homomorphism(base: CommitBase, m1: int, r1: int, m2: int, r2: int)
    requires
        base.wf(),
    ensures
        md(base.com_log(m1, r1) + base.com_log(m2, r2)) == base.com_log(m1 + m2, r1 + r2),
{
    let a = base.g.log() * m1 + base.h.log() * r1;
    let b = base.g.log() * m2 + base.h.log() * r2;
    lemma_md_add(a, b);
    assert(a + b == base.g.log() * (m1 + m2) + base.h.log() * (r1 + r2)) by {
        lemma_mul_is_distributive_add(base.g.log(), m1, m2);
        lemma_mul_is_distributive_add(base.h.log(), r1, r2);
    }
}

} // verus!
