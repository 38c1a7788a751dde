//! Ed25519 acknowledgement signatures over the bytes of a commitment.
use vstd::prelude::*;
use crate::replicated::{ReplicaCommitment, commitment_bytes};
use crate::group::Point;

verus! {

/// The Ed25519 public key of the secret key `sk`.
pub uninterp spec fn ed25519_public_key(sk: Seq<u8>) -> Seq<u8>;

/// The Ed25519 signature of `msg` under the secret key `sk` (signing is
/// deterministic).
pub uninterp spec fn ed25519_signature(sk: Seq<u8>, msg: Seq<u8>) -> Seq<u8>;

/// `pk` decodes to a public key under which `sig` is a valid signature of
/// `msg`.
pub uninterp spec fn ed25519_accepts(pk: Seq<u8>, msg: Seq<u8>, sig: Seq<u8>) -> bool;

/// Relies on `rand::rngs::OsRng::fill_bytes`; nothing is promised of the bytes.
#[verifier::external_body]
fn random_secret_key() -> (r: [u8; 32]) {
    let mut bytes = [0u8; 32];
    rand::RngCore::fill_bytes(&mut rand::rngs::OsRng, &mut bytes);
    bytes
}

/// Relies on `SigningKey::from_bytes`, `verifying_key` and
/// `VerifyingKey::to_bytes`.
#[verifier::external_body]
fn public_key_of(sk: &[u8; 32]) -> (r: [u8; 32])
    ensures
        r@ == ed25519_public_key(sk@),
{
    ed25519_dalek::SigningKey::from_bytes(sk).verifying_key().to_bytes()
}

/// Relies on `Signer::sign` for `SigningKey` and `Signature::to_bytes`;
/// an Ed25519 signature verifies under the signer's public key.
#[verifier::external_body]
fn sign_bytes(sk: &[u8; 32], msg: &[u8]) -> (r: [u8; 64])
    ensures
        r@ == ed25519_signature(sk@, msg@),
        ed25519_accepts(ed25519_public_key(sk@), msg@, r@),
{
    ed25519_dalek::Signer::sign(&ed25519_dalek::SigningKey::from_bytes(sk), msg).to_bytes()
}

/// Relies on `VerifyingKey::from_bytes`, `Signature::from_slice` and
/// `Verifier::verify`: false when the key or the signature does not decode.
#[verifier::external_body]
fn verify_bytes(pk: &[u8; 32], msg: &[u8], sig: &[u8]) -> (r: bool)
    ensures
        r == (sig@.len() == 64 && ed25519_accepts(pk@, msg@, sig@)),
{
    match (ed25519_dalek::VerifyingKey::from_bytes(pk), ed25519_dalek::Signature::from_slice(sig)) {
        (Ok(key), Ok(s)) => ed25519_dalek::Verifier::verify(&key, msg, &s).is_ok(),
        _ => false,
    }
}

/// The public key of the signing key `sk`.
pub fn public_key(sk: &[u8; 32]) -> (r: [u8; 32])
    ensures
        r@ == ed25519_public_key(sk@),
{
    public_key_of(sk)
}

/// A fresh signing key and its public key.
pub fn gen_keys() -> (r: ([u8; 32], [u8; 32]))
    ensures
        r.1@ == ed25519_public_key(r.0@),
{
    let sk = random_secret_key();
    let pk = public_key_of(&sk);
    (sk, pk)
}

/// A signature as its 64 bytes.
#[derive(Clone, Debug)]
pub struct MySignature(pub Vec<u8>);

impl MySignature {
    /// A copy with the same bytes.
    pub fn copy(&self) -> (r: Self)
        ensures
            r.0@ == self.0@,
    {
        let mut v: Vec<u8> = Vec::new();
        crate::bytes::extend_bytes(&mut v, self.0.as_slice());
        MySignature(v)
    }
}

impl Default for MySignature {
    /// 64 zero bytes.
    fn default() -> (r: Self)
        ensures
            r.0@ == Seq::new(64, |i: int| 0u8),
    {
        let mut v: Vec<u8> = Vec::new();
        let mut i: usize = 0;
        while i < 64
            invariant
                i <= 64,
                v@ == Seq::new(i as nat, |k: int| 0u8),
            decreases 64 - i,
        {
            v.push(0);
            i = i + 1;
            assert(v@ =~= Seq::new(i as nat, |k: int| 0u8));
        }
        MySignature(v)
    }
}

impl PartialEq for MySignature {
    fn eq(&self, other: &MySignature) -> (r: bool) {
        if self.0.len() != other.0.len() {
            return false;
        }
        let mut i: usize = 0;
        while i < self.0.len()
            invariant
                self.0.len() == other.0.len(),
                i <= self.0.len(),
                forall|k: int| 0 <= k < i ==> self.0@[k] == other.0@[k],
            decreases self.0.len() - i,
        {
            if self.0[i] != other.0[i] {
                proof {
                    assert(self.0@[i as int] != other.0@[i as int]);
                }
                return false;
            }
            i = i + 1;
        }
        proof {
            assert(self.0@ =~= other.0@);
        }
        true
    }
}

impl vstd::std_specs::cmp::PartialEqSpecImpl for MySignature {
    open spec fn obeys_eq_spec() -> bool {
        true
    }

    open spec fn eq_spec(&self, other: &MySignature) -> bool {
        self.0@ == other.0@
    }
}

impl Eq for MySignature {
}

/// The acknowledgement of a prover: its signature of the commitment's bytes.
pub fn sign_verified_deal(sig_key: &[u8; 32], coms: &ReplicaCommitment) -> (r: MySignature)
    requires
        coms.wf(),
    ensures
        r.0@ == ed25519_signature(sig_key@, commitment_bytes(coms.com@)),
        sig_valid(coms.com@, ed25519_public_key(sig_key@), r.0@),
{
    let msg = coms.to_bytes();
    let sig = sign_bytes(sig_key, msg.as_slice());
    let mut v: Vec<u8> = Vec::new();
    crate::bytes::extend_bytes(&mut v, sig.as_slice());
    MySignature(v)
}

/// Whether `sig` is a valid acknowledgement of `coms` under `pk`.
pub fn verify_sig(coms: &ReplicaCommitment, pk: &[u8; 32], sig: &MySignature) -> (r: bool)
    requires
        coms.wf(),
    ensures
        r == sig_valid(coms.com@, pk@, sig.0@),
{
    let msg = coms.to_bytes();
    verify_bytes(pk, msg.as_slice(), sig.0.as_slice())
}

pub proof fn lemma_commitment_bytes_len(coms: Seq<Point>)
    ensures
        commitment_bytes(coms).len() == 32 * coms.len(),
    decreases coms.len(),
{
    if coms.len() > 0 {
        lemma_commitment_bytes_len(coms.drop_last());
    }
}

/// The message that an acknowledgement signs determines the commitment:
/// two commitments of the same length that differ in any byte of any point
/// give different messages, so a signature is checked against different
/// bytes.
pub proof fn lemma_commitment_bytes_injective(a: Seq<Point>, b: Seq<Point>)
    requires
        a.len() == b.len(),
        commitment_bytes(a) == commitment_bytes(b),
    ensures
        forall|j: int| 0 <= j < a.len() ==> (#[trigger] a[j]).bytes@ == b[j].bytes@,
    decreases a.len(),
{
    if a.len() > 0 {
        let n = a.len() - 1;
        lemma_commitment_bytes_len(a.drop_last());
        lemma_commitment_bytes_len(b.drop_last());
        let pa = commitment_bytes(a.drop_last());
        let pb = commitment_bytes(b.drop_last());
        assert(commitment_bytes(a) == pa + a[n].bytes@);
        assert(commitment_bytes(b) == pb + b[n].bytes@);
        assert(pa =~= commitment_bytes(a).subrange(0, pa.len() as int));
        assert(pb =~= commitment_bytes(b).subrange(0, pb.len() as int));
        assert(a[n].bytes@ =~= commitment_bytes(a).subrange(pa.len() as int, commitment_bytes(a).len() as int));
        assert(b[n].bytes@ =~= commitment_bytes(b).subrange(pb.len() as int, commitment_bytes(b).len() as int));
        lemma_commitment_bytes_injective(a.drop_last(), b.drop_last());
        assert forall|j: int| 0 <= j < a.len() implies (#[trigger] a[j]).bytes@ == b[j].bytes@ by {
            if j < n {
                assert(a.drop_last()[j] == a[j]);
                assert(b.drop_last()[j] == b[j]);
            }
        }
    }
}

/// `sig` is a valid signature under `pk` of the bytes of the commitment `coms`.
pub open spec fn sig_valid(coms: Seq<Point>, pk: Seq<u8>, sig: Seq<u8>) -> bool {
    sig.len() == 64 && ed25519_accepts(pk, commitment_bytes(coms), sig)
}

} // verus!
