//! The committee layout: `PROVER_NUM` provers, threshold `THRESHOLD`, secrets
//! split into `SPLIT_LEN` parts, of which each prover holds `SHARE_LEN`.
use vstd::prelude::*;

verus! {

/// Number of mask bits per share position that a prover commits to.
pub const BITS_NUM: usize = 64;

pub const PROVER_NUM: usize = 3;

pub const THRESHOLD: usize = 1;

pub const SHARE_LEN: usize = 2;

pub const SPLIT_LEN: usize = 3;

/// The split position that prover `i` holds in its slot `j`: prover 0 holds
/// parts {0, 1}, prover 1 holds {0, 2}, prover 2 holds {1, 2}.
pub open spec fn spec_ind(i: int, j: int) -> int {
    if i == 0 {
        if j == 0 { 0 } else { 1 }
    } else if i == 1 {
        if j == 0 { 0 } else { 2 }
    } else {
        if j == 0 { 1 } else { 2 }
    }
}

pub fn ind_arr(i: usize, j: usize) -> (r: usize)
    requires
        i < PROVER_NUM,
        j < SHARE_LEN,
    ensures
        r == spec_ind(i as int, j as int),
        r < SPLIT_LEN,
{
    if i == 0 {
        if j == 0 { 0 } else { 1 }
    } else if i == 1 {
        if j == 0 { 0 } else { 2 }
    } else {
        if j == 0 { 1 } else { 2 }
    }
}

/// Prover `i` holds split position `j`.
pub open spec fn holds(i: int, j: int) -> bool {
    exists|l: int| 0 <= l < SHARE_LEN && #[trigger] spec_ind(i, l) == j
}

/// Any `PROVER_NUM - THRESHOLD` provers together hold every split position,
/// and no `THRESHOLD` of them do.
pub proof fn lemma_layout_threshold()
    ensures
        forall|a: int, b: int, j: int|
            0 <= a < PROVER_NUM && 0 <= b < PROVER_NUM && a != b && 0 <= j < SPLIT_LEN ==> #[trigger] holds(a, j)
                || #[trigger] holds(b, j),
        forall|a: int| 0 <= a < PROVER_NUM ==> !#[trigger] holds(a, 2 - a),
{
    assert forall|a: int, b: int, j: int|
        0 <= a < PROVER_NUM && 0 <= b < PROVER_NUM && a != b && 0 <= j < SPLIT_LEN implies #[trigger] holds(a, j)
            || #[trigger] holds(b, j) by {
        if spec_ind(a, 0) == j {
            assert(holds(a, j));
        } else if spec_ind(a, 1) == j {
            assert(holds(a, j));
        } else if spec_ind(b, 0) == j {
            assert(holds(b, j));
        } else {
            assert(spec_ind(b, 1) == j);
            assert(holds(b, j));
        }
    }
}

} // verus!
