//! The chroma quantizer: a fixed sixteen-entry representative-value
//! table mapping a continuous chroma value to a 4-bit index and back.
//!
//! The table's entries are exact at scale [`SCALE`]. Quantization picks
//! the nearest representative; on a tie the lower index wins.

use vstd::prelude::*;
use crate::fixed::SCALE;

verus! {

/// The magnitude of an integer.
pub open spec fn iabs(x: int) -> int {
    if x < 0 {
        -x
    } else {
        x
    }
}

/// The representative chroma value of index `i`, at scale [`SCALE`].
pub open spec fn chroma_rep(i: int) -> int
    recommends
        0 <= i < 16,
{
    if i == 0 {
        -350000
    } else if i == 1 {
        -200000
    } else if i == 2 {
        -150000
    } else if i == 3 {
        -100000
    } else if i == 4 {
        -77000
    } else if i == 5 {
        -55000
    } else if i == 6 {
        -33000
    } else if i == 7 {
        -11000
    } else if i == 8 {
        11000
    } else if i == 9 {
        33000
    } else if i == 10 {
        55000
    } else if i == 11 {
        77000
    } else if i == 12 {
        100000
    } else if i == 13 {
        150000
    } else if i == 14 {
        200000
    } else {
        350000
    }
}

/// Every table entry lies within `[-0.35, 0.35]` of full scale.
pub proof fn lemma_chroma_rep_range(i: int)
    ensures
        -350000 <= chroma_rep(i) <= 350000,
{
}

/// The index of the table entry nearest `chroma` among the first `n`,
/// the lower index winning a tie.
pub open spec fn best_index_upto(chroma: int, n: int) -> int
    decreases n,
{
    if n <= 1 {
        0
    } else {
        let b = best_index_upto(chroma, n - 1);
        if iabs(chroma_rep(n - 1) - chroma) < iabs(chroma_rep(b) - chroma) {
            n - 1
        } else {
            b
        }
    }
}

/// The quantizer: the index of the table entry nearest `chroma`, the
/// lower index winning a tie.
pub open spec fn spec_index_of_chroma(chroma: int) -> int {
    best_index_upto(chroma, 16)
}

/// The nearest index among the first `n` is in range and no farther
/// from `chroma` than any of them.
proof fn lemma_best_upto_props(chroma: int, n: int)
    requires
        1 <= n <= 16,
    ensures
        0 <= best_index_upto(chroma, n) < n,
        forall|j: int|
            0 <= j < n ==> iabs(chroma_rep(best_index_upto(chroma, n)) - chroma) <= iabs(
                #[trigger] chroma_rep(j) - chroma,
            ),
    decreases n,
{
    if n > 1 {
        lemma_best_upto_props(chroma, n - 1);
    }
}

/// Dequantizing any valid chroma index and quantizing the value again
/// returns the index: the representative values are pairwise distinct,
/// so each is strictly nearest to itself.
pub proof fn lemma_chroma_index_round_trip(i: int)
    requires
        0 <= i < 16,
    ensures
        spec_index_of_chroma(chroma_rep(i)) == i,
{
    lemma_best_upto_props(chroma_rep(i), 16);
    let b = spec_index_of_chroma(chroma_rep(i));
    assert(iabs(chroma_rep(b) - chroma_rep(i)) <= iabs(chroma_rep(i) - chroma_rep(i)));
    assert(chroma_rep(b) == chroma_rep(i));
    assert(b == i);
}

/// The quantizer always answers a valid 4-bit index.
pub proof fn lemma_index_range(c: int)
    ensures
        0 <= spec_index_of_chroma(c) < 16,
{
    lemma_best_upto_props(c, 16);
}

/// Chroma quantization error is bounded: for a chroma value in
/// `[-1/2, 1/2]` of full scale, the nearest table entry lies within
/// `0.15` of full scale of it (the table's widest half-gap, met at the
/// interval's ends).
pub proof fn lemma_chroma_quant_error(c: int)
    requires
        -500000 <= c <= 500000,
    ensures
        iabs(chroma_rep(spec_index_of_chroma(c)) - c) <= 150000,
{
    lemma_best_upto_props(c, 16);
    if c <= -275000 {
        assert(iabs(chroma_rep(0) - c) <= 150000);
    } else if c <= -175000 {
        assert(iabs(chroma_rep(1) - c) <= 150000);
    } else if c <= -125000 {
        assert(iabs(chroma_rep(2) - c) <= 150000);
    } else if c <= 0 {
        assert(iabs(chroma_rep(7) - c) <= 150000);
    } else if c <= 125000 {
        assert(iabs(chroma_rep(8) - c) <= 150000);
    } else if c <= 175000 {
        assert(iabs(chroma_rep(13) - c) <= 150000);
    } else if c <= 275000 {
        assert(iabs(chroma_rep(14) - c) <= 150000);
    } else {
        assert(iabs(chroma_rep(15) - c) <= 150000);
    }
}

/// The magnitude of an integer.
pub fn iabs_i64(x: i64) -> (r: i64)
    requires
        x > i64::MIN,
    ensures
        r as int == iabs(x as int),
{
    if x < 0 {
        -x
    } else {
        x
    }
}

/// The representative chroma value of `index`, at scale [`SCALE`].
pub fn chroma_of_index_fx(index: u64) -> (r: i64)
    requires
        index < 16,
    ensures
        r as int == chroma_rep(index as int),
        -350000 <= r <= 350000,
{
    if index == 0 {
        -350000
    } else if index == 1 {
        -200000
    } else if index == 2 {
        -150000
    } else if index == 3 {
        -100000
    } else if index == 4 {
        -77000
    } else if index == 5 {
        -55000
    } else if index == 6 {
        -33000
    } else if index == 7 {
        -11000
    } else if index == 8 {
        11000
    } else if index == 9 {
        33000
    } else if index == 10 {
        55000
    } else if index == 11 {
        77000
    } else if index == 12 {
        100000
    } else if index == 13 {
        150000
    } else if index == 14 {
        200000
    } else {
        350000
    }
}

/// Quantizes a chroma value to the index of the nearest table entry,
/// the lower index winning a tie.
pub fn index_of_chroma_fx(chroma: i64) -> (r: u64)
    requires
        -SCALE <= chroma <= SCALE,
    ensures
        r < 16,
        r as int == spec_index_of_chroma(chroma as int),
        forall|j: int|
            0 <= j < 16 ==> iabs(chroma_rep(r as int) - chroma as int) <= iabs(
                #[trigger] chroma_rep(j) - chroma as int,
            ),
        forall|j: int|
            0 <= j < r ==> iabs(#[trigger] chroma_rep(j) - chroma as int) > iabs(
                chroma_rep(r as int) - chroma as int,
            ),
{
    let mut best: u64 = 0;
    let mut best_dist: i64 = iabs_i64(chroma_of_index_fx(0) - chroma);
    let mut i: u64 = 1;
    while i < 16
        invariant
            1 <= i <= 16,
            best < i,
            -SCALE <= chroma <= SCALE,
            best as int == best_index_upto(chroma as int, i as int),
            best_dist as int == iabs(chroma_rep(best as int) - chroma as int),
            forall|j: int|
                0 <= j < i ==> iabs(chroma_rep(best as int) - chroma as int) <= iabs(
                    #[trigger] chroma_rep(j) - chroma as int,
                ),
            forall|j: int|
                0 <= j < best ==> iabs(#[trigger] chroma_rep(j) - chroma as int) > iabs(
                    chroma_rep(best as int) - chroma as int,
                ),
        decreases 16 - i,
    {
        let d = iabs_i64(chroma_of_index_fx(i) - chroma);
        if d < best_dist {
            best = i;
            best_dist = d;
        }
        i = i + 1;
    }
    best
}

} // verus!
