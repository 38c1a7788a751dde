//! The prime-order group (Ristretto255) and its scalar field.
//!
//! Scalars and points are held as their 32-byte canonical encodings. Their
//! mathematical meaning is an integer modulo the group order: a scalar is the
//! little-endian number its bytes spell (reduced), a point is its discrete log
//! to the Ristretto base point.
use vstd::prelude::*;
use vstd::arithmetic::div_mod::*;
use vstd::arithmetic::mul::*;
use curve25519_dalek::ristretto::{CompressedRistretto, RistrettoPoint};
use sha3::Digest;

verus! {

/// The order of the Ristretto255 group, 2^252 + 27742317777372353535851937790883648493.
pub open spec fn group_order() -> nat {
    7237005577332262213973186563042994240857116359379907606001950938285454250989nat
}

/// The number that a byte string spells in little-endian order.
pub open spec fn le_nat(b: Seq<u8>) -> nat
    decreases b.len(),
{
    if b.len() == 0 {
        0
    } else {
        b[0] as nat + 256 * le_nat(b.subrange(1, b.len() as int))
    }
}

/// Compressed Ristretto encoding of `k` times the base point.
pub uninterp spec fn base_multiple_encoding(k: int) -> Seq<u8>;

/// The point that Elligator maps a SHA3-512 digest of `seed` to, compressed.
pub uninterp spec fn hashed_point_encoding(seed: Seq<u8>) -> Seq<u8>;

/// SHA3-256 digest of `data`.
pub uninterp spec fn sha3_256_digest(data: Seq<u8>) -> Seq<u8>;

/// An element of the scalar field, as 32 little-endian bytes.
#[derive(Clone, Copy)]
pub struct Scalar {
    pub bytes: [u8; 32],
}

/// An element of the group, as its 32-byte compressed Ristretto encoding.
#[derive(Clone, Copy)]
pub struct Point {
    pub bytes: [u8; 32],
}

impl Scalar {
    /// The field element: the bytes' number reduced modulo the group order.
    pub open spec fn val(&self) -> int {
        md(le_nat(self.bytes@) as int)
    }

    /// The bytes are already reduced (the wire form).
    pub open spec fn canonical(&self) -> bool {
        le_nat(self.bytes@) < group_order()
    }
}

impl Point {
    /// The bytes encode a group element.
    pub open spec fn wf(&self) -> bool {
        exists|k: int| #[trigger] encodes(self.bytes@, k)
    }

    /// The discrete log of the point to the base point.
    pub open spec fn log(&self) -> int {
        choose|k: int| #[trigger] encodes(self.bytes@, k)
    }
}

/// `b` is the encoding of `k` times the base point, and of no other reduced multiple.
pub open spec fn encodes(b: Seq<u8>, k: int) -> bool {
    &&& 0 <= k < group_order()
    &&& base_multiple_encoding(k) == b
    &&& forall|j: int| 0 <= j < group_order() && #[trigger] base_multiple_encoding(j) == b ==> j == k
}

impl Scalar {
    /// The scalar whose value is `x`.
    pub fn from_u64(x: u64) -> (r: Scalar)
        ensures
            r.val() == x as int,
            r.canonical(),
    {
        scalar_from_u64(x)
    }

    /// The scalar that the little-endian number `bytes` reduces to.
    pub fn from_bytes_mod_order(bytes: [u8; 32]) -> (r: Scalar)
        ensures
            r.val() == md(le_nat(bytes@) as int),
            r.canonical(),
    {
        scalar_reduce(bytes)
    }

    pub fn add(&self, other: &Scalar) -> (r: Scalar)
        ensures
            r.val() == md(self.val() + other.val()),
            r.canonical(),
    {
        scalar_add(self, other)
    }

    pub fn sub(&self, other: &Scalar) -> (r: Scalar)
        ensures
            r.val() == md(self.val() - other.val()),
            r.canonical(),
    {
        scalar_sub(self, other)
    }

    pub fn mul(&self, other: &Scalar) -> (r: Scalar)
        ensures
            r.val() == md(self.val() * other.val()),
            r.canonical(),
    {
        scalar_mul(self, other)
    }

    /// The multiplicative inverse, for a nonzero scalar.
    pub fn invert(&self) -> (r: Scalar)
        ensures
            self.val() != 0 ==> md(r.val() * self.val()) == 1,
            r.canonical(),
    {
        scalar_invert(self)
    }

    /// Whether the two scalars are the same field element.
    pub fn same_value(&self, other: &Scalar) -> (r: bool)
        ensures
            r == (self.val() == other.val()),
    {
        scalar_eq(self, other)
    }
}

impl Point {
    /// Whether the bytes encode a group element.
    pub fn is_valid(&self) -> (r: bool)
        ensures
            r == self.wf(),
    {
        point_is_valid(self)
    }

    /// The group element derived from `seed` by hashing.
    pub fn from_seed(seed: &[u8]) -> (r: Point)
        ensures
            r.wf(),
            r.bytes@ == hashed_point_encoding(seed@),
    {
        hash_to_point(seed)
    }
}

/// Residue of `x` modulo the group order.
#[verifier::opaque]
pub open spec fn md(x: int) -> int {
    x % (group_order() as int)
}

pub proof fn lemma_log_bounds(p: Point)
    requires
        p.wf(),
    ensures
        encodes(p.bytes@, p.log()),
        md(p.log()) == p.log(),
{
    reveal(md);
    lemma_small_mod(p.log() as nat, group_order());
}

/// For well-formed points, equal encodings and equal logs are the same thing.
pub proof fn lemma_point_eq(a: Point, b: Point)
    requires
        a.wf(),
        b.wf(),
    ensures
        (a.bytes@ == b.bytes@) == (a.log() == b.log()),
{
    lemma_log_bounds(a);
    lemma_log_bounds(b);
}

/// A point that encodes `k` is well formed with log `k`.
pub proof fn lemma_point_of_log(p: Point, k: int)
    requires
        encodes(p.bytes@, k),
    ensures
        p.wf(),
        p.log() == k,
{
}

pub proof fn lemma_md_add(a: int, b: int)
    ensures
        md(md(a) + md(b)) == md(a + b),
        md(a + md(b)) == md(a + b),
        md(md(a) + b) == md(a + b),
{
    reveal(md);
    let l = group_order() as int;
    lemma_add_mod_noop(a, b, l);
    lemma_add_mod_noop_right(a, b, l);
    lemma_add_mod_noop(a, b, l);
    lemma_mod_twice(a, l);
    lemma_mod_twice(b, l);
    lemma_add_mod_noop(md(a), b, l);
}

pub proof fn lemma_md_sub(a: int, b: int)
    ensures
        md(md(a) - md(b)) == md(a - b),
        md(a - md(b)) == md(a - b),
        md(md(a) - b) == md(a - b),
{
    reveal(md);
    let l = group_order() as int;
    lemma_sub_mod_noop(a, b, l);
    lemma_sub_mod_noop_right(a, b, l);
    lemma_mod_twice(a, l);
    lemma_mod_twice(b, l);
    lemma_sub_mod_noop(md(a), b, l);
}

pub proof fn lemma_md_mul(a: int, b: int)
    ensures
        md(md(a) * md(b)) == md(a * b),
        md(a * md(b)) == md(a * b),
        md(md(a) * b) == md(a * b),
{
    reveal(md);
    let l = group_order() as int;
    lemma_mul_mod_noop(a, b, l);
    lemma_mul_mod_noop_right(a, b, l);
    lemma_mul_mod_noop_left(a, b, l);
}

/// A residue standing as a factor in a sum can be replaced by its value.
pub proof fn lemma_md_lin(a: int, c: int, b: int)
    ensures
        md(a + md(c) * b) == md(a + c * b),
        md(a - md(c) * b) == md(a - c * b),
{
    lemma_md_mul(c, b);
    lemma_md_add(a, md(c) * b);
    lemma_md_add(a, c * b);
    lemma_md_sub(a, md(c) * b);
    lemma_md_sub(a, c * b);
}

pub proof fn lemma_scalar_bound(s: Scalar)
    ensures
        0 <= s.val() < group_order(),
        md(s.val()) == s.val(),
{
    lemma_md_bound(le_nat(s.bytes@) as int);
    lemma_md_small(s.val());
}

/// Reduced values are their own residues.
pub proof fn lemma_md_small(x: int)
    requires
        0 <= x < group_order(),
    ensures
        md(x) == x,
{
    reveal(md);
    lemma_small_mod(x as nat, group_order());
}

pub proof fn lemma_md_bound(x: int)
    ensures
        0 <= md(x) < group_order(),
{
    reveal(md);
    lemma_mod_bound(x, group_order() as int);
}

/// Two values with the same residue differ by a multiple of the order.
pub proof fn lemma_md_cancel(x: int, a: int)
    requires
        md(x + a) == md(x),
    ensures
        md(a) == 0,
{
    reveal(md);
    lemma_md_sub(x + a, x);
    assert(x + a - x == a);
    lemma_mod_self_0(group_order() as int);
    assert(md(md(x + a) - md(x)) == md(0));
    lemma_small_mod(0, group_order());
}

pub proof fn lemma_md_neg(x: int)
    requires
        0 < x < group_order(),
    ensures
        md(-x) != 0,
{
    reveal(md);
    let l = group_order() as int;
    lemma_fundamental_div_mod(-x, l);
    lemma_md_bound(-x);
    if md(-x) == 0 {
        assert(-x == l * ((-x) / l));
        if (-x) / l >= 0 {
            lemma_mul_nonnegative(l, (-x) / l);
        } else {
            lemma_mul_strict_inequality(l * ((-x) / l) , 0, 1);
            lemma_mul_is_distributive_add(l, (-x) / l, 1);
            assert(l * ((-x) / l) <= -l) by (nonlinear_arith)
                requires (-x) / l < 0, l > 0;
        }
    }
}

/// Relies on `Scalar::from_bytes_mod_order` and `Scalar::to_bytes`: the bytes'
/// number reduced modulo the group order, in canonical form.
#[verifier::external_body]
pub(crate) fn scalar_reduce(bytes: [u8; 32]) -> (r: Scalar)
    ensures
        r.val() == md(le_nat(bytes@) as int),
        r.canonical(),
{
    Scalar { bytes: curve25519_dalek::scalar::Scalar::from_bytes_mod_order(bytes).to_bytes() }
}

/// `256^k`.
pub open spec fn pow256(k: nat) -> nat
    decreases k,
{
    if k == 0 {
        1
    } else {
        256 * pow256((k - 1) as nat)
    }
}

pub proof fn lemma_pow256_grows(k: nat)
    ensures
        pow256(k) >= 1,
        pow256(k + 1) >= pow256(k),
    decreases k,
{
    if k > 0 {
        lemma_pow256_grows((k - 1) as nat);
    }
}

pub proof fn lemma_pow256_mono(a: nat, b: nat)
    requires
        a <= b,
    ensures
        pow256(a) <= pow256(b),
    decreases b - a,
{
    if a < b {
        lemma_pow256_mono(a, (b - 1) as nat);
        lemma_pow256_grows((b - 1) as nat);
    }
}

/// Appending a byte adds it at the weight of its position.
pub proof fn lemma_le_nat_push(s: Seq<u8>, b: u8)
    ensures
        le_nat(s.push(b)) == le_nat(s) + b as nat * pow256(s.len()),
    decreases s.len(),
{
    if s.len() == 0 {
        assert(s.push(b).subrange(1, 1) =~= Seq::<u8>::empty());
        assert(le_nat(Seq::<u8>::empty()) == 0);
        assert(le_nat(s.push(b)) == s.push(b)[0] as nat + 256 * le_nat(s.push(b).subrange(1, 1)));
        assert(pow256(0) == 1);
    } else {
        let t = s.subrange(1, s.len() as int);
        assert(s.push(b).subrange(1, s.len() as int + 1) =~= t.push(b));
        lemma_le_nat_push(t, b);
        assert(le_nat(s.push(b)) == s[0] as nat + 256 * le_nat(t.push(b)));
        assert(le_nat(s) == s[0] as nat + 256 * le_nat(t));
        assert(pow256(s.len()) == 256 * pow256(t.len()));
        let p = pow256(t.len());
        assert(256 * (le_nat(t) + b as nat * p) == 256 * le_nat(t) + b as nat * (256 * p))
            by (nonlinear_arith);
    }
}

/// The scalar whose value is `x`: its eight little-endian bytes, then zeros.
pub(crate) fn scalar_from_u64(x: u64) -> (r: Scalar)
    ensures
        r.val() == x as int,
        r.canonical(),
{
    let mut bytes = [0u8; 32];
    let mut rem: u64 = x;
    let mut k: usize = 0;
    proof {
        assert(bytes@.subrange(0, 0) =~= Seq::<u8>::empty());
        assert(le_nat(Seq::<u8>::empty()) == 0);
        assert(pow256(0) == 1);
    }
    while k < 32
        invariant
            k <= 32,
            bytes@.len() == 32,
            x as nat == le_nat(bytes@.subrange(0, k as int)) + pow256(k as nat) * rem as nat,
        decreases 32 - k,
    {
        let byte = (rem % 256) as u8;
        let next = rem / 256;
        let ghost pre = bytes@.subrange(0, k as int);
        bytes[k] = byte;
        proof {
            assert(bytes@.subrange(0, k + 1) =~= pre.push(byte));
            lemma_le_nat_push(pre, byte);
            let p = pow256(k as nat);
            assert(pow256((k + 1) as nat) == 256 * p);
            assert(rem as nat == 256 * next as nat + byte as nat);
            assert(p * rem as nat == byte as nat * p + (256 * p) * next as nat) by (nonlinear_arith)
                requires
                    rem as nat == 256 * next as nat + byte as nat,
            ;
        }
        rem = next;
        k = k + 1;
    }
    proof {
        assert(bytes@.subrange(0, 32) =~= bytes@);
        assert(pow256(8) == 18446744073709551616nat) by {
            reveal_with_fuel(pow256, 9);
        }
        lemma_pow256_mono(8, 32);
        if rem > 0 {
            assert(pow256(32) * rem as nat >= pow256(32)) by (nonlinear_arith)
                requires
                    rem > 0,
            ;
        }
        lemma_small_mod(x as nat, group_order());
        reveal(md);
    }
    Scalar { bytes }
}

/// Relies on `Add` for `Scalar`: addition modulo the group order.
#[verifier::external_body]
pub(crate) fn scalar_add(a: &Scalar, b: &Scalar) -> (r: Scalar)
    ensures
        r.val() == md(a.val() + b.val()),
        r.canonical(),
{
    let x = curve25519_dalek::scalar::Scalar::from_bytes_mod_order(a.bytes);
    let y = curve25519_dalek::scalar::Scalar::from_bytes_mod_order(b.bytes);
    Scalar { bytes: (x + y).to_bytes() }
}

/// Relies on `Sub` for `Scalar`: subtraction modulo the group order.
#[verifier::external_body]
pub(crate) fn scalar_sub(a: &Scalar, b: &Scalar) -> (r: Scalar)
    ensures
        r.val() == md(a.val() - b.val()),
        r.canonical(),
{
    let x = curve25519_dalek::scalar::Scalar::from_bytes_mod_order(a.bytes);
    let y = curve25519_dalek::scalar::Scalar::from_bytes_mod_order(b.bytes);
    Scalar { bytes: (x - y).to_bytes() }
}

/// Relies on `Mul` for `Scalar`: multiplication modulo the group order.
#[verifier::external_body]
pub(crate) fn scalar_mul(a: &Scalar, b: &Scalar) -> (r: Scalar)
    ensures
        r.val() == md(a.val() * b.val()),
        r.canonical(),
{
    let x = curve25519_dalek::scalar::Scalar::from_bytes_mod_order(a.bytes);
    let y = curve25519_dalek::scalar::Scalar::from_bytes_mod_order(b.bytes);
    Scalar { bytes: (x * y).to_bytes() }
}

/// Relies on `Scalar::invert`: the multiplicative inverse of a nonzero
/// scalar (nothing is promised for zero).
#[verifier::external_body]
pub(crate) fn scalar_invert(a: &Scalar) -> (r: Scalar)
    ensures
        a.val() != 0 ==> md(r.val() * a.val()) == 1,
        r.canonical(),
{
    Scalar { bytes: curve25519_dalek::scalar::Scalar::from_bytes_mod_order(a.bytes).invert().to_bytes() }
}

/// Equal residues stay equal when multiplied by the same factor.
pub proof fn lemma_md_mul_cong(a: int, a2: int, b: int)
    requires
        md(a) == md(a2),
    ensures
        md(a * b) == md(a2 * b),
{
    lemma_md_mul(a, b);
    lemma_md_mul(a2, b);
}

/// Relies on `PartialEq` for `Scalar` (constant-time byte comparison of the
/// reduced forms).
#[verifier::external_body]
pub(crate) fn scalar_eq(a: &Scalar, b: &Scalar) -> (r: bool)
    ensures
        r == (a.val() == b.val()),
{
    let x = curve25519_dalek::scalar::Scalar::from_bytes_mod_order(a.bytes);
    let y = curve25519_dalek::scalar::Scalar::from_bytes_mod_order(b.bytes);
    x == y
}

/// Relies on `RistrettoPoint::mul_base` and `compress`: `k` times the base
/// point. The base point generates the group, whose order is prime, so the
/// encoding determines the multiple.
#[verifier::external_body]
pub(crate) fn mul_base(k: &Scalar) -> (r: Point)
    ensures
        r.bytes@ == base_multiple_encoding(k.val()),
        encodes(r.bytes@, k.val()),
{
    let s = curve25519_dalek::scalar::Scalar::from_bytes_mod_order(k.bytes);
    Point { bytes: RistrettoPoint::mul_base(&s).compress().to_bytes() }
}

/// Relies on `CompressedRistretto::decompress`, `Add` for `RistrettoPoint`
/// and `compress`: the group operation.
#[verifier::external_body]
pub(crate) fn point_add(a: &Point, b: &Point) -> (r: Point)
    requires
        a.wf(),
        b.wf(),
    ensures
        forall|x: int, y: int|
            #[trigger] encodes(a.bytes@, x) && #[trigger] encodes(b.bytes@, y) ==> encodes(
                r.bytes@,
                md(x + y),
            ),
{
    let p = CompressedRistretto(a.bytes).decompress().unwrap();
    let q = CompressedRistretto(b.bytes).decompress().unwrap();
    Point { bytes: (p + q).compress().to_bytes() }
}

/// Relies on `CompressedRistretto::decompress`, `Sub` for `RistrettoPoint`
/// and `compress`: the group operation with the inverse of `b`.
#[verifier::external_body]
pub(crate) fn point_sub(a: &Point, b: &Point) -> (r: Point)
    requires
        a.wf(),
        b.wf(),
    ensures
        forall|x: int, y: int|
            #[trigger] encodes(a.bytes@, x) && #[trigger] encodes(b.bytes@, y) ==> encodes(
                r.bytes@,
                md(x - y),
            ),
{
    let p = CompressedRistretto(a.bytes).decompress().unwrap();
    let q = CompressedRistretto(b.bytes).decompress().unwrap();
    Point { bytes: (p - q).compress().to_bytes() }
}

/// Relies on `CompressedRistretto::decompress`, `Mul<Scalar>` for
/// `RistrettoPoint` and `compress`: scalar multiplication.
#[verifier::external_body]
pub(crate) fn point_mul(a: &Point, k: &Scalar) -> (r: Point)
    requires
        a.wf(),
    ensures
        forall|x: int| #[trigger]
            encodes(a.bytes@, x) ==> encodes(r.bytes@, md(x * k.val())),
{
    let p = CompressedRistretto(a.bytes).decompress().unwrap();
    let s = curve25519_dalek::scalar::Scalar::from_bytes_mod_order(k.bytes);
    Point { bytes: (p * s).compress().to_bytes() }
}

/// Relies on `RistrettoPoint::from_hash` over a `Sha3_512` hasher fed with
/// `seed`, and `compress`: a group element determined by the seed.
#[verifier::external_body]
pub(crate) fn hash_to_point(seed: &[u8]) -> (r: Point)
    ensures
        r.bytes@ == hashed_point_encoding(seed@),
        r.wf(),
{
    let mut hasher = sha3::Sha3_512::new();
    hasher.update(seed);
    Point { bytes: RistrettoPoint::from_hash(hasher).compress().to_bytes() }
}

/// Relies on `CompressedRistretto::decompress`: it succeeds exactly on the
/// canonical encodings of group elements.
#[verifier::external_body]
pub(crate) fn point_is_valid(p: &Point) -> (r: bool)
    ensures
        r == p.wf(),
{
    CompressedRistretto(p.bytes).decompress().is_some()
}

/// Relies on `Sha3_256::digest`: the 32-byte digest of `data`.
#[verifier::external_body]
pub(crate) fn sha3_256(data: &[u8]) -> (r: [u8; 32])
    ensures
        r@ == sha3_256_digest(data@),
{
    sha3::Sha3_256::digest(data).into()
}

/// Equality of two encodings.
pub fn bytes32_eq(a: &[u8; 32], b: &[u8; 32]) -> (r: bool)
    ensures
        r == (a@ == b@),
{
    let mut i: usize = 0;
    while i < 32
        invariant
            0 <= i <= 32,
            forall|j: int| 0 <= j < i ==> a@[j] == b@[j],
        decreases 32 - i,
    {
        if a[i] != b[i] {
            return false;
        }
        i = i + 1;
    }
    assert(a@ =~= b@);
    true
}

/// Equality of two group elements.
pub fn point_eq(a: &Point, b: &Point) -> (r: bool)
    requires
        a.wf(),
        b.wf(),
    ensures
        r == (a.log() == b.log()),
{
    proof {
        lemma_point_eq(*a, *b);
    }
    bytes32_eq(&a.bytes, &b.bytes)
}

/// The identity element.
pub fn identity() -> (r: Point)
    ensures
        r.wf(),
        r.log() == 0,
{
    let z = scalar_from_u64(0);
    let r = mul_base(&z);
    proof {
        lemma_point_of_log(r, 0);
    }
    r
}

pub fn plus(a: &Point, b: &Point) -> (r: Point)
    requires
        a.wf(),
        b.wf(),
    ensures
        r.wf(),
        r.log() == md(a.log() + b.log()),
{
    let r = point_add(a, b);
    proof {
        lemma_log_bounds(*a);
        lemma_log_bounds(*b);
        lemma_point_of_log(r, md(a.log() + b.log()));
    }
    r
}

pub fn minus(a: &Point, b: &Point) -> (r: Point)
    requires
        a.wf(),
        b.wf(),
    ensures
        r.wf(),
        r.log() == md(a.log() - b.log()),
{
    let r = point_sub(a, b);
    proof {
        lemma_log_bounds(*a);
        lemma_log_bounds(*b);
        lemma_point_of_log(r, md(a.log() - b.log()));
    }
    r
}

pub fn times(a: &Point, k: &Scalar) -> (r: Point)
    requires
        a.wf(),
    ensures
        r.wf(),
        r.log() == md(a.log() * k.val()),
{
    let r = point_mul(a, k);
    proof {
        lemma_log_bounds(*a);
        lemma_point_of_log(r, md(a.log() * k.val()));
    }
    r
}

/// `k` times the base point.
pub fn base_mul(k: &Scalar) -> (r: Point)
    ensures
        r.wf(),
        r.log() == k.val(),
{
    let r = mul_base(k);
    proof {
        lemma_md_bound(le_nat(k.bytes@) as int);
        lemma_point_of_log(r, k.val());
    }
    r
}

} // verus!
