//! The non-interactive Σ-OR proof that a commitment opens to 0 or to 1.
use vstd::prelude::*;
use vstd::string::StringSliceAdditionalSpecFns;
use crate::group::{
    Point, Scalar, md, le_nat, sha3_256_digest, sha3_256, scalar_reduce, scalar_add,
    scalar_sub, scalar_mul, scalar_eq, point_is_valid, point_eq, plus, minus, times,
    lemma_md_add, lemma_md_sub, lemma_md_mul, lemma_md_cancel, lemma_md_neg, lemma_point_eq, lemma_md_lin, lemma_scalar_bound,
};
use crate::bytes::extend_bytes;
use crate::commitment::CommitBase;
use crate::util::{random_scalar, scalar_zero, scalar_one};
use crate::DST_ROBUST_DP_SIGMA_OR_GENERATION;

verus! {

/// A proof that a commitment opens to 0 or 1: challenges `e = e0 + e1`,
/// responses `v0, v1` and first messages `d0, d1`, one branch per bit.
#[derive(Clone, Copy)]
pub struct ProofStruct {
    pub e0: Scalar,
    pub e1: Scalar,
    pub e: Scalar,
    pub v0: Scalar,
    pub v1: Scalar,
    pub d0: Point,
    pub d1: Point,
}

/// The bytes hashed into the challenge.
pub open spec fn sigma_or_input(c: Seq<u8>, d0: Seq<u8>, d1: Seq<u8>) -> Seq<u8> {
    DST_ROBUST_DP_SIGMA_OR_GENERATION.spec_bytes() + c + d0 + d1
}

/// The Fiat-Shamir challenge of commitment `c` and first messages `d0, d1`.
pub open spec fn sigma_or_challenge(c: Seq<u8>, d0: Seq<u8>, d1: Seq<u8>) -> int {
    md(le_nat(sha3_256_digest(sigma_or_input(c, d0, d1))) as int)
}

/// The verification equations of the proof `p` for commitment `c`.
pub open spec fn proof_accepts(base: CommitBase, c: Point, p: ProofStruct) -> bool {
    &&& c.wf()
    &&& p.d0.wf()
    &&& p.d1.wf()
    &&& p.e.val() == sigma_or_challenge(c.bytes@, p.d0.bytes@, p.d1.bytes@)
    &&& p.e.val() == md(p.e1.val() + p.e0.val())
    &&& md(p.d0.log() + c.log() * p.e0.val()) == md(base.h.log() * p.v0.val())
    &&& md(p.d1.log() + c.log() * p.e1.val()) == md(
        base.g.log() * p.e1.val() + base.h.log() * p.v1.val(),
    )
}

/// `p` was built for commitment `c` with the witness bit 0, blinding `r` and
/// honest-branch nonce `alpha`: branch 0 is answered, branch 1 simulated.
pub open spec fn made_for_zero(base: CommitBase, c: Point, r: int, alpha: int, p: ProofStruct) -> bool {
    &&& p.d0.wf()
    &&& p.d1.wf()
    &&& p.d0.log() == md(base.h.log() * alpha)
    &&& p.d1.log() == md(
        base.h.log() * p.v1.val() - c.log() * p.e1.val() + base.g.log() * p.e1.val(),
    )
    &&& p.e.val() == sigma_or_challenge(c.bytes@, p.d0.bytes@, p.d1.bytes@)
    &&& p.e0.val() == md(p.e.val() - p.e1.val())
    &&& p.v0.val() == md(alpha + p.e0.val() * r)
}

/// `p` was built for commitment `c` with the witness bit 1, blinding `r` and
/// honest-branch nonce `alpha`: branch 1 is answered, branch 0 simulated.
pub open spec fn made_for_one(base: CommitBase, c: Point, r: int, alpha: int, p: ProofStruct) -> bool {
    &&& p.d0.wf()
    &&& p.d1.wf()
    &&& p.d1.log() == md(base.h.log() * alpha)
    &&& p.d0.log() == md(base.h.log() * p.v0.val() - c.log() * p.e0.val())
    &&& p.e.val() == sigma_or_challenge(c.bytes@, p.d0.bytes@, p.d1.bytes@)
    &&& p.e1.val() == md(p.e.val() - p.e0.val())
    &&& p.v1.val() == md(alpha + p.e1.val() * r)
}

/// The challenge scalar for commitment `c` and first messages `d0, d1`.
pub fn sigma_or_hash(c: &Point, d0: &Point, d1: &Point) -> (e: Scalar)
    ensures
        e.val() == sigma_or_challenge(c.bytes@, d0.bytes@, d1.bytes@),
        e.canonical(),
{
    let mut input: Vec<u8> = Vec::new();
    extend_bytes(&mut input, DST_ROBUST_DP_SIGMA_OR_GENERATION.as_bytes());
    extend_bytes(&mut input, c.bytes.as_slice());
    extend_bytes(&mut input, d0.bytes.as_slice());
    extend_bytes(&mut input, d1.bytes.as_slice());
    let digest = sha3_256(input.as_slice());
    scalar_reduce(digest)
}

/// The proof for witness bit 0 from its three random draws: the response
/// `v1` and challenge `e1` of the simulated branch, and the nonce `b`.
pub fn build_proof_0(
    commit_base: &CommitBase,
    ct_rand: Scalar,
    com: Point,
    v1: Scalar,
    e1: Scalar,
    b: Scalar,
) -> (p: ProofStruct)
    requires
        commit_base.wf(),
        com.wf(),
    ensures
        made_for_zero(*commit_base, com, ct_rand.val(), b.val(), p),
        p.v1 == v1,
        p.e1 == e1,
        com.log() == commit_base.com_log(0, ct_rand.val()) ==> proof_accepts(
            *commit_base,
            com,
            p,
        ),
{
    let ce1 = times(&com, &e1);
    let ge1 = times(&commit_base.g, &e1);
    let hv1 = times(&commit_base.h, &v1);
    let t = minus(&hv1, &ce1);
    let d1 = plus(&t, &ge1);
    let d0 = times(&commit_base.h, &b);
    let e = sigma_or_hash(&com, &d0, &d1);
    let e0 = scalar_sub(&e, &e1);
    let er = scalar_mul(&e0, &ct_rand);
    let v0 = scalar_add(&b, &er);
    let p = ProofStruct { e0, e1, e, v0, v1, d0, d1 };
    proof {
        let h = commit_base.h.log();
        let g = commit_base.g.log();
        let c = com.log();
        lemma_md_sub(h * v1.val(), c * e1.val());
        lemma_md_add(h * v1.val() - c * e1.val(), g * e1.val());
        assert(p.d1.log() == md(h * v1.val() - c * e1.val() + g * e1.val()));
        lemma_md_add(b.val(), e0.val() * ct_rand.val());
        lemma_sigma_or_complete_zero(*commit_base, com, ct_rand.val(), b.val(), p);
    }
    p
}

/// The proof for witness bit 1 from its three random draws: the response
/// `v0` and challenge `e0` of the simulated branch, and the nonce `b`.
pub fn build_proof_1(
    commit_base: &CommitBase,
    ct_rand: Scalar,
    com: Point,
    v0: Scalar,
    e0: Scalar,
    b: Scalar,
) -> (p: ProofStruct)
    requires
        commit_base.wf(),
        com.wf(),
    ensures
        made_for_one(*commit_base, com, ct_rand.val(), b.val(), p),
        p.v0 == v0,
        p.e0 == e0,
        com.log() == commit_base.com_log(1, ct_rand.val()) ==> proof_accepts(
            *commit_base,
            com,
            p,
        ),
{
    let ce0 = times(&com, &e0);
    let hv0 = times(&commit_base.h, &v0);
    let d0 = minus(&hv0, &ce0);
    let d1 = times(&commit_base.h, &b);
    let e = sigma_or_hash(&com, &d0, &d1);
    let e1 = scalar_sub(&e, &e0);
    let er = scalar_mul(&e1, &ct_rand);
    let v1 = scalar_add(&b, &er);
    let p = ProofStruct { e0, e1, e, v0, v1, d0, d1 };
    proof {
        let h = commit_base.h.log();
        let c = com.log();
        lemma_md_sub(h * v0.val(), c * e0.val());
        lemma_md_add(b.val(), e1.val() * ct_rand.val());
        lemma_sigma_or_complete_one(*commit_base, com, ct_rand.val(), b.val(), p);
    }
    p
}

/// A proof made for bit 0 passes against a commitment to 0 with the same
/// blinding.
pub proof fn lemma_sigma_or_complete_zero(
    base: CommitBase,
    c: Point,
    r: int,
    alpha: int,
    p: ProofStruct,
)
    requires
        base.wf(),
        c.wf(),
        made_for_zero(base, c, r, alpha, p),
    ensures
        c.log() == base.com_log(0, r) ==> proof_accepts(base, c, p),
{
    if c.log() == base.com_log(0, r) {
        let h = base.h.log();
        let g = base.g.log();
        let cl = c.log();
        let e0 = p.e0.val();
        let e1 = p.e1.val();
        let e = p.e.val();
        lemma_scalar_bound(p.e);
        // e = e1 + e0
        lemma_md_add(e1, e - e1);
        assert(e1 + (e - e1) == e);
        // d0 + c·e0 = h·v0
        lemma_md_add(h * alpha, cl * e0);
        lemma_md_lin(h * alpha, g * 0 + h * r, e0);
        lemma_md_mul(h, alpha + e0 * r);
        assert(h * alpha + (g * 0 + h * r) * e0 == h * (alpha + e0 * r)) by (nonlinear_arith);
        // d1 + c·e1 = g·e1 + h·v1
        let x = h * p.v1.val() - cl * e1 + g * e1;
        lemma_md_add(x, cl * e1);
        assert(x + cl * e1 == g * e1 + h * p.v1.val());
    }
}

/// A proof made for bit 1 passes against a commitment to 1 with the same
/// blinding.
pub proof fn lemma_sigma_or_complete_one(
    base: CommitBase,
    c: Point,
    r: int,
    alpha: int,
    p: ProofStruct,
)
    requires
        base.wf(),
        c.wf(),
        made_for_one(base, c, r, alpha, p),
    ensures
        c.log() == base.com_log(1, r) ==> proof_accepts(base, c, p),
{
    if c.log() == base.com_log(1, r) {
        let h = base.h.log();
        let g = base.g.log();
        let cl = c.log();
        let e0 = p.e0.val();
        let e1 = p.e1.val();
        let e = p.e.val();
        lemma_scalar_bound(p.e);
        // e = e1 + e0
        lemma_md_add(e - e0, e0);
        assert((e - e0) + e0 == e);
        // d0 + c·e0 = h·v0
        let x = h * p.v0.val() - cl * e0;
        lemma_md_add(x, cl * e0);
        assert(x + cl * e0 == h * p.v0.val());
        // d1 + c·e1 = g·e1 + h·v1
        lemma_md_add(h * alpha, cl * e1);
        lemma_md_lin(h * alpha, g * 1 + h * r, e1);
        lemma_md_mul(h, alpha + e1 * r);
        lemma_md_add(g * e1, h * (alpha + e1 * r));
        lemma_md_add(g * e1, h * p.v1.val());
        assert(h * alpha + (g * 1 + h * r) * e1 == g * e1 + h * (alpha + e1 * r))
            by (nonlinear_arith);
    }
}

/// A proof made for bit 0 fails against the commitment to 1 with the same
/// blinding, unless both challenge halves `e0` and `e1` are zero.
pub proof fn lemma_sigma_or_sound_zero(
    base: CommitBase,
    c0: Point,
    c1: Point,
    r: int,
    alpha: int,
    p: ProofStruct,
)
    requires
        base.wf(),
        c0.wf(),
        c1.wf(),
        c0.log() == base.com_log(0, r),
        c1.log() == base.com_log(1, r),
        made_for_zero(base, c0, r, alpha, p),
        p.e0.val() != 0 || p.e1.val() != 0,
    ensures
        !proof_accepts(base, c1, p),
{
    if proof_accepts(base, c1, p) {
        let h = base.h.log();
        let g = base.g.log();
        let hr = h * r;
        let e1 = p.e1.val();
        let v1 = p.v1.val();
        let y = h * v1 + g * e1;
        // d1 + c1·e1 with c0 and c1 replaced by their values
        let x = h * v1 - c0.log() * e1 + g * e1;
        lemma_md_add(x, c1.log() * e1);
        assert(x + c1.log() * e1 == (y - c0.log() * e1) + c1.log() * e1);
        lemma_md_lin(y - c0.log() * e1, g * 1 + h * r, e1);
        assert((y - c0.log() * e1) + (g * 1 + h * r) * e1 == (y + (g * 1 + h * r) * e1) - c0.log()
            * e1);
        lemma_md_lin(y + (g * 1 + h * r) * e1, g * 0 + h * r, e1);
        assert((y + (g * 1 + h * r) * e1) - (g * 0 + h * r) * e1 == (g * e1 + h * v1) + e1)
            by (nonlinear_arith)
            requires
                y == h * v1 + g * e1,
                g == 1,
        ;
        lemma_md_cancel(g * e1 + h * v1, e1);
        lemma_scalar_bound(p.e1);
        // d0 + c1·e0 = h·v0 + e0, while the equation asks for h·v0
        let e0 = p.e0.val();
        lemma_md_add(h * alpha, c1.log() * e0);
        lemma_md_lin(h * alpha, g * 1 + hr, e0);
        lemma_md_mul(h, alpha + e0 * r);
        assert(h * alpha + (g * 1 + hr) * e0 == h * (alpha + e0 * r) + e0) by (nonlinear_arith)
            requires
                g == 1,
                hr == h * r,
        ;
        lemma_md_cancel(h * (alpha + e0 * r), e0);
        lemma_scalar_bound(p.e0);
    }
}

/// A proof made for bit 1 fails against the commitment to 0 with the same
/// blinding, unless both challenge halves `e0` and `e1` are zero.
pub proof fn lemma_sigma_or_sound_one(
    base: CommitBase,
    c0: Point,
    c1: Point,
    r: int,
    alpha: int,
    p: ProofStruct,
)
    requires
        base.wf(),
        c0.wf(),
        c1.wf(),
        c0.log() == base.com_log(0, r),
        c1.log() == base.com_log(1, r),
        made_for_one(base, c1, r, alpha, p),
        p.e0.val() != 0 || p.e1.val() != 0,
    ensures
        !proof_accepts(base, c0, p),
{
    if proof_accepts(base, c0, p) {
        let h = base.h.log();
        let g = base.g.log();
        let hr = h * r;
        let e0 = p.e0.val();
        let v0 = p.v0.val();
        // d0 + c0·e0 with c0 and c1 replaced by their values
        let x = h * v0 - c1.log() * e0;
        lemma_md_add(x, c0.log() * e0);
        assert(x + c0.log() * e0 == (h * v0 + c0.log() * e0) - c1.log() * e0);
        lemma_md_lin(h * v0 + c0.log() * e0, g * 1 + h * r, e0);
        assert((h * v0 + c0.log() * e0) - (g * 1 + h * r) * e0 == (h * v0 - (g * 1 + h * r) * e0)
            + c0.log() * e0);
        lemma_md_lin(h * v0 - (g * 1 + h * r) * e0, g * 0 + h * r, e0);
        assert((h * v0 - (g * 1 + h * r) * e0) + (g * 0 + h * r) * e0 == h * v0 + (-e0))
            by (nonlinear_arith)
            requires
                g == 1,
        ;
        lemma_md_cancel(h * v0, -e0);
        lemma_scalar_bound(p.e0);
        if e0 != 0 {
            lemma_md_neg(e0);
        }
        // d1 + c0·e1 = h·v1 - e1, while the equation asks for g·e1 + h·v1
        let e1 = p.e1.val();
        lemma_md_add(h * alpha, c0.log() * e1);
        lemma_md_lin(h * alpha, g * 0 + hr, e1);
        lemma_md_mul(h, alpha + e1 * r);
        lemma_md_add(g * e1, h * (alpha + e1 * r));
        lemma_md_add(g * e1, h * p.v1.val());
        assert(h * alpha + (g * 0 + hr) * e1 + e1 == g * e1 + h * (alpha + e1 * r)) by (nonlinear_arith)
            requires
                g == 1,
                hr == h * r,
        ;
        lemma_md_cancel(h * alpha + (g * 0 + hr) * e1, e1);
        lemma_scalar_bound(p.e1);
    }
}

/// Whether `pf_scalar` proves that `reconcom` opens to 0 or 1.
pub fn sigma_or_verify(commit_base: &CommitBase, pf_scalar: &ProofStruct, reconcom: Point) -> (r: bool)
    requires
        commit_base.wf(),
    ensures
        r == proof_accepts(*commit_base, reconcom, *pf_scalar),
{
    if !point_is_valid(&reconcom) || !point_is_valid(&pf_scalar.d0) || !point_is_valid(
        &pf_scalar.d1,
    ) {
        return false;
    }
    let e = sigma_or_hash(&reconcom, &pf_scalar.d0, &pf_scalar.d1);
    if !scalar_eq(&e, &pf_scalar.e) {
        return false;
    }
    let sum = scalar_add(&pf_scalar.e1, &pf_scalar.e0);
    if !scalar_eq(&pf_scalar.e, &sum) {
        return false;
    }
    let ce0 = times(&reconcom, &pf_scalar.e0);
    let lhs0 = plus(&pf_scalar.d0, &ce0);
    let hv0 = times(&commit_base.h, &pf_scalar.v0);
    proof {
        lemma_md_add(pf_scalar.d0.log(), reconcom.log() * pf_scalar.e0.val());
    }
    if !point_eq(&lhs0, &hv0) {
        return false;
    }
    let ce1 = times(&reconcom, &pf_scalar.e1);
    let lhs1 = plus(&pf_scalar.d1, &ce1);
    let ge1 = times(&commit_base.g, &pf_scalar.e1);
    let hv1 = times(&commit_base.h, &pf_scalar.v1);
    let rhs1 = plus(&ge1, &hv1);
    proof {
        lemma_md_add(pf_scalar.d1.log(), reconcom.log() * pf_scalar.e1.val());
        lemma_md_add(
            commit_base.g.log() * pf_scalar.e1.val(),
            commit_base.h.log() * pf_scalar.v1.val(),
        );
    }
    point_eq(&lhs1, &rhs1)
}

impl ProofStruct {
    pub fn verify(&self, commit_base: &CommitBase, reconcom: Point) -> (r: bool)
        requires
            commit_base.wf(),
        ensures
            r == proof_accepts(*commit_base, reconcom, *self),
    {
        sigma_or_verify(commit_base, self, reconcom)
    }
}

/// A proof that `com` opens to 0 with blinding `ct_rand`, with fresh random
/// draws.
pub fn create_proof_0_with_com(commit_base: &CommitBase, ct_rand: Scalar, com: Point) -> (p:
    ProofStruct)
    requires
        commit_base.wf(),
        com.wf(),
    ensures
        exists|alpha: int| made_for_zero(*commit_base, com, ct_rand.val(), alpha, p),
        com.log() == commit_base.com_log(0, ct_rand.val()) ==> proof_accepts(
            *commit_base,
            com,
            p,
        ),
{
    let v1 = random_scalar();
    let e1 = random_scalar();
    let b = random_scalar();
    build_proof_0(commit_base, ct_rand, com, v1, e1, b)
}

/// A proof that `com` opens to 1 with blinding `ct_rand`, with fresh random
/// draws.
pub fn create_proof_1_with_com(commit_base: &CommitBase, ct_rand: Scalar, com: Point) -> (p:
    ProofStruct)
    requires
        commit_base.wf(),
        com.wf(),
    ensures
        exists|alpha: int| made_for_one(*commit_base, com, ct_rand.val(), alpha, p),
        com.log() == commit_base.com_log(1, ct_rand.val()) ==> proof_accepts(
            *commit_base,
            com,
            p,
        ),
{
    let v0 = random_scalar();
    let e0 = random_scalar();
    let b = random_scalar();
    build_proof_1(commit_base, ct_rand, com, v0, e0, b)
}

/// A proof that `Com(0, ct_rand)` opens to 0 or 1; it passes verification
/// against that commitment.
pub fn create_proof_0(commit_base: &CommitBase, ct_rand: Scalar) -> (p: ProofStruct)
    requires
        commit_base.wf(),
    ensures
        forall|c: Point|
            c.wf() && c.log() == commit_base.com_log(0, ct_rand.val()) ==> #[trigger] proof_accepts(
                *commit_base,
                c,
                p,
            ),
        forall|c: Point|
            c.wf() && c.log() == commit_base.com_log(0, ct_rand.val()) ==> exists|alpha: int|
                #[trigger] made_for_zero(*commit_base, c, ct_rand.val(), alpha, p),
{
    let zero = scalar_zero();
    let com = commit_base.commit(zero, ct_rand);
    let p = create_proof_0_with_com(commit_base, ct_rand, com);
    proof {
        assert forall|c: Point|
            c.wf() && c.log() == commit_base.com_log(0, ct_rand.val()) implies #[trigger] proof_accepts(
                *commit_base,
                c,
                p,
            ) by {
            lemma_point_eq(c, com);
        }
        assert forall|c: Point|
            c.wf() && c.log() == commit_base.com_log(0, ct_rand.val()) implies exists|alpha: int|
                #[trigger] made_for_zero(*commit_base, c, ct_rand.val(), alpha, p) by {
            lemma_point_eq(c, com);
            let alpha = choose|alpha: int| made_for_zero(*commit_base, com, ct_rand.val(), alpha, p);
            assert(made_for_zero(*commit_base, c, ct_rand.val(), alpha, p));
        }
    }
    p
}

/// A proof that `Com(1, ct_rand)` opens to 0 or 1; it passes verification
/// against that commitment.
pub fn create_proof_1(commit_base: &CommitBase, ct_rand: Scalar) -> (p: ProofStruct)
    requires
        commit_base.wf(),
    ensures
        forall|c: Point|
            c.wf() && c.log() == commit_base.com_log(1, ct_rand.val()) ==> #[trigger] proof_accepts(
                *commit_base,
                c,
                p,
            ),
        forall|c: Point|
            c.wf() && c.log() == commit_base.com_log(1, ct_rand.val()) ==> exists|alpha: int|
                #[trigger] made_for_one(*commit_base, c, ct_rand.val(), alpha, p),
{
    let one = scalar_one();
    let com = commit_base.commit(one, ct_rand);
    let p = create_proof_1_with_com(commit_base, ct_rand, com);
    proof {
        assert forall|c: Point|
            c.wf() && c.log() == commit_base.com_log(1, ct_rand.val()) implies #[trigger] proof_accepts(
                *commit_base,
                c,
                p,
            ) by {
            lemma_point_eq(c, com);
        }
        assert forall|c: Point|
            c.wf() && c.log() == commit_base.com_log(1, ct_rand.val()) implies exists|alpha: int|
                #[trigger] made_for_one(*commit_base, c, ct_rand.val(), alpha, p) by {
            lemma_point_eq(c, com);
            let alpha = choose|alpha: int| made_for_one(*commit_base, com, ct_rand.val(), alpha, p);
            assert(made_for_one(*commit_base, c, ct_rand.val(), alpha, p));
        }
    }
    p
}

} // verus!
