//! Bits drawn from a hash of a value, and the masking of bit commitments.
use vstd::prelude::*;
use crate::group::{Point, md, plus, minus};
use crate::commitment::CommitBase;

verus! {

/// Relies on `BuildHasher::hash_one` with std's `DefaultHasher`. Nothing is
/// promised of the value: it depends on `T`'s `Hash` impl and on the std
/// release.
#[verifier::external_body]
pub(crate) fn calculate_hash<T: std::hash::Hash>(t: &T) -> (r: u64) {
    std::hash::BuildHasher::hash_one(
        &std::hash::BuildHasherDefault::<std::collections::hash_map::DefaultHasher>::default(),
        t,
    )
}

/// Bit `i` of `h`, counting from the least significant.
pub open spec fn lsb_bit(h: u64, i: int) -> bool {
    (h >> (i as u64)) & 1u64 == 1u64
}

/// The `nb` lowest bits of `h`, least significant first.
pub open spec fn lsb_bits(h: u64, nb: int) -> Seq<bool> {
    Seq::new(nb as nat, |i: int| lsb_bit(h, i))
}

/// The first `nb` (at most 64) bits of `h`, most significant first.
pub open spec fn msb_bits(h: u64, nb: int) -> Seq<bool> {
    Seq::new(if nb < 64 { nb as nat } else { 64 }, |i: int| lsb_bit(h, 63 - i))
}

/// The first `nb` bits of a hash of `input`, most significant first.
pub fn hash_T_to_bit_array<T: std::hash::Hash>(input: T, nb: usize) -> (r: Vec<bool>)
    ensures
        exists|h: u64| r@ == msb_bits(h, nb as int),
{
    let hash = calculate_hash(&input);
    let r = msb_bit_array(hash, nb);
    r
}

/// The first `nb` (at most 64) bits of `hash`, most significant first.
pub fn msb_bit_array(hash: u64, nb: usize) -> (r: Vec<bool>)
    ensures
        r@ == msb_bits(hash, nb as int),
{
    let n: usize = if nb < 64 { nb } else { 64 };
    let mut result: Vec<bool> = Vec::new();
    let mut i: usize = 0;
    while i < n
        invariant
            n <= 64,
            n == if nb < 64 { nb as int } else { 64 },
            i <= n,
            result@ == msb_bits(hash, nb as int).subrange(0, i as int),
        decreases n - i,
    {
        let s: u64 = (63 - i) as u64;
        let bit = ((hash >> s) & 1) != 0;
        proof {
            let b = (hash >> s) & 1u64;
            assert(b == 0u64 || b == 1u64) by (bit_vector)
                requires
                    b == (hash >> s) & 1u64,
            ;
        }
        result.push(bit);
        i = i + 1;
        assert(result@ =~= msb_bits(hash, nb as int).subrange(0, i as int));
    }
    assert(msb_bits(hash, nb as int).subrange(0, n as int) =~= msb_bits(hash, nb as int));
    result
}

/// The `nb` lowest bits of `hash`, least significant first.
pub fn convert_to_bit_array(hash: u64, nb: usize) -> (r: Vec<bool>)
    requires
        nb <= 64,
    ensures
        r@ == lsb_bits(hash, nb as int),
{
    let mut result: Vec<bool> = Vec::new();
    let mut i: usize = 0;
    while i < nb
        invariant
            nb <= 64,
            i <= nb,
            result@ == lsb_bits(hash, nb as int).subrange(0, i as int),
        decreases nb - i,
    {
        let bit = (hash >> (i as u64)) & 1;
        result.push(bit != 0);
        proof {
            let s = i as u64;
            assert(bit == 0u64 || bit == 1u64) by (bit_vector)
                requires
                    bit == (hash >> s) & 1u64,
            ;
        }
        i = i + 1;
        assert(result@ =~= lsb_bits(hash, nb as int).subrange(0, i as int));
    }
    assert(lsb_bits(hash, nb as int).subrange(0, nb as int) =~= lsb_bits(hash, nb as int));
    result
}

/// The `nb` lowest bits set.
pub open spec fn low_mask(nb: u64) -> u64 {
    ((1u64 << nb) - 1) as u64
}

/// The `nb` lowest bits of `h`.
pub open spec fn low_bits(h: u64, nb: u64) -> u64 {
    h & low_mask(nb)
}

/// A hash of the encodings of the commitments `coms`, row after row, cut to
/// its `nb` lowest bits.
fn hash_coms(coms: &Vec<Vec<Point>>, nb: usize) -> (r: u64)
    requires
        nb < 64,
    ensures
        exists|h: u64| r == #[trigger] low_bits(h, nb as u64),
{
    let mut concatenated: Vec<u8> = Vec::new();
    let mut i: usize = 0;
    while i < coms.len()
        decreases coms.len() - i,
    {
        let row = &coms[i];
        let mut j: usize = 0;
        while j < row.len()
            decreases row.len() - j,
        {
            crate::bytes::extend_bytes(&mut concatenated, row[j].bytes.as_slice());
            j = j + 1;
        }
        i = i + 1;
    }
    let h = calculate_hash(&concatenated);
    let s: u64 = nb as u64;
    let p: u64 = 1u64 << s;
    assert(p >= 1u64) by (bit_vector)
        requires
            s < 64u64,
            p == 1u64 << s,
    ;
    let m: u64 = p - 1;
    let r = h & m;
    assert(r == low_bits(h, nb as u64));
    r
}

/// `nb` bits drawn from a hash of the commitments `coms`, least significant
/// first.
pub fn hash_to_bit_array(coms: &Vec<Vec<Point>>, nb: usize) -> (r: Vec<bool>)
    requires
        nb < 64,
    ensures
        r.len() == nb,
        exists|h: u64| r@ == lsb_bits(h, nb as int),
{
    let hash = hash_coms(coms, nb);
    convert_to_bit_array(hash, nb)
}

/// The log of commitment `u` after the public bit `r`: `g + h - u` when it
/// is set (a commitment to the flipped bit), `u` otherwise.
pub open spec fn masked_log(base: CommitBase, u: Point, r: bool) -> int {
    if r {
        md(base.g.log() + base.h.log() - u.log())
    } else {
        u.log()
    }
}

/// Each commitment of `coms` masked by the bit of `bit_arry` at its index.
pub fn xor_commitments(coms: &Vec<Point>, bit_arry: &Vec<bool>, g: Point, h: Point) -> (r: Vec<
    Point,
>)
    requires
        bit_arry.len() >= coms.len(),
        g.wf(),
        h.wf(),
        forall|i: int| 0 <= i < coms.len() ==> (#[trigger] coms@[i]).wf(),
    ensures
        r.len() == coms.len(),
        forall|i: int| 0 <= i < r.len() ==> (#[trigger] r@[i]).wf(),
        forall|i: int|
            0 <= i < r.len() ==> (#[trigger] r@[i]).log() == masked_log(
                CommitBase { g, h },
                coms@[i],
                bit_arry@[i],
            ),
{
    let mut result: Vec<Point> = Vec::new();
    let gh = plus(&g, &h);
    let mut i: usize = 0;
    while i < coms.len()
        invariant
            bit_arry.len() >= coms.len(),
            forall|i: int| 0 <= i < coms.len() ==> (#[trigger] coms@[i]).wf(),
            gh.wf(),
            gh.log() == md(g.log() + h.log()),
            i <= coms.len(),
            result.len() == i,
            forall|k: int| 0 <= k < i ==> (#[trigger] result@[k]).wf(),
            forall|k: int|
                0 <= k < i ==> (#[trigger] result@[k]).log() == masked_log(
                    CommitBase { g, h },
                    coms@[k],
                    bit_arry@[k],
                ),
        decreases coms.len() - i,
    {
        if bit_arry[i] {
            let m = minus(&gh, &coms[i]);
            proof {
                crate::group::lemma_md_sub(g.log() + h.log(), coms@[i as int].log());
            }
            result.push(m);
        } else {
            result.push(coms[i]);
        }
        i = i + 1;
    }
    result
}

} // verus!
