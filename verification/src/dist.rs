//! Distance metrics over fixed-precision vector coordinates.
//!
//! Coordinates are `i32`; distances are exact integers (`u128`), so every
//! comparison the index makes is exact. `L2` is the squared Euclidean
//! distance, which orders candidates identically to the Euclidean distance.

use vstd::prelude::*;

verus! {

/// Largest value one coordinate pair can contribute under either metric:
/// `(2^32 - 1)^2`, the square of the widest possible `i32` difference.
pub const TERM_MAX: u128 = 0xFFFF_FFFE_0000_0001;

/// Distance metric configured at index creation.
#[derive(Clone, Copy, PartialEq, Eq, Structural, Debug)]
pub enum Metric {
    /// Squared Euclidean distance.
    L2,
    /// Manhattan distance.
    L1,
}

pub open spec fn abs_diff(a: int, b: int) -> int {
    if a >= b {
        a - b
    } else {
        b - a
    }
}

/// Contribution of one coordinate pair to the distance.
pub open spec fn coord_term(m: Metric, a: int, b: int) -> int {
    match m {
        Metric::L2 => (a - b) * (a - b),
        Metric::L1 => abs_diff(a, b),
    }
}

/// Distance restricted to the first `n` coordinates.
pub open spec fn dist_upto(m: Metric, a: Seq<i32>, b: Seq<i32>, n: int) -> int
    decreases n,
{
    if n <= 0 {
        0
    } else {
        dist_upto(m, a, b, n - 1) + coord_term(m, a[n - 1] as int, b[n - 1] as int)
    }
}

/// The distance between two equal-length coordinate sequences.
pub open spec fn dist(m: Metric, a: Seq<i32>, b: Seq<i32>) -> int {
    dist_upto(m, a, b, a.len() as int)
}

pub proof fn lemma_coord_term_nonneg(m: Metric, a: int, b: int)
    ensures
        coord_term(m, a, b) >= 0,
{
    assert((a - b) * (a - b) >= 0) by (nonlinear_arith);
}

pub proof fn lemma_dist_upto_nonneg(m: Metric, a: Seq<i32>, b: Seq<i32>, n: int)
    ensures
        dist_upto(m, a, b, n) >= 0,
    decreases n,
{
    if n > 0 {
        lemma_dist_upto_nonneg(m, a, b, n - 1);
        lemma_coord_term_nonneg(m, a[n - 1] as int, b[n - 1] as int);
    }
}

/// A vector is at distance zero from itself.
pub proof fn lemma_dist_self_zero(m: Metric, a: Seq<i32>)
    ensures
        dist(m, a, a) == 0,
{
    lemma_dist_upto_self_zero(m, a, a.len() as int);
}

proof fn lemma_dist_upto_self_zero(m: Metric, a: Seq<i32>, n: int)
    ensures
        dist_upto(m, a, a, n) == 0,
    decreases n,
{
    if n > 0 {
        lemma_dist_upto_self_zero(m, a, n - 1);
    }
}

pub proof fn lemma_coord_term_bound(m: Metric, a: int, b: int)
    requires
        i32::MIN <= a <= i32::MAX,
        i32::MIN <= b <= i32::MAX,
    ensures
        coord_term(m, a, b) <= TERM_MAX,
{
    let d = abs_diff(a, b);
    assert(d <= 0xFFFF_FFFF);
    if a >= b {
        assert((a - b) * (a - b) == d * d);
    } else {
        assert((a - b) * (a - b) == d * d) by (nonlinear_arith)
            requires
                d == b - a,
        ;
    }
    assert(d * d <= 0xFFFF_FFFF * 0xFFFF_FFFF) by (nonlinear_arith)
        requires
            0 <= d <= 0xFFFF_FFFF,
    ;
}

pub proof fn lemma_dist_upto_bound(m: Metric, a: Seq<i32>, b: Seq<i32>, n: int)
    requires
        0 <= n <= a.len(),
        n <= b.len(),
    ensures
        dist_upto(m, a, b, n) <= n * TERM_MAX,
    decreases n,
{
    if n > 0 {
        lemma_dist_upto_bound(m, a, b, n - 1);
        lemma_coord_term_bound(m, a[n - 1] as int, b[n - 1] as int);
        assert((n - 1) * TERM_MAX + TERM_MAX == n * TERM_MAX) by (nonlinear_arith);
    } else {
        assert(n * TERM_MAX == 0) by (nonlinear_arith)
            requires
                n == 0,
        ;
    }
}

/// The distance of two equal-length vectors, computed exactly.
pub fn dist_exec(m: Metric, a: &Vec<i32>, b: &Vec<i32>) -> (r: u128)
    requires
        a@.len() == b@.len(),
    ensures
        r == dist(m, a@, b@),
{
    let n = a.len();
    let mut acc: u128 = 0;
    for i in 0..n
        invariant
            n == a@.len(),
            n == b@.len(),
            acc == dist_upto(m, a@, b@, i as int),
            acc <= i * TERM_MAX,
    {
        let ai = a[i];
        let bi = b[i];
        let d: i64 = (ai as i64) - (bi as i64);
        let ad: u64 = if d >= 0 {
            d as u64
        } else {
            (-d) as u64
        };
        assert(ad == abs_diff(ai as int, bi as int));
        let t: u64 = match m {
            Metric::L2 => {
                proof {
                    assert(ad * ad <= 0xFFFF_FFFF * 0xFFFF_FFFF) by (nonlinear_arith)
                        requires
                            0 <= ad <= 0xFFFF_FFFF,
                    ;
                    assert((ai as int - bi as int) * (ai as int - bi as int) == (ad as int) * (
                    ad as int)) by (nonlinear_arith)
                        requires
                            ad == abs_diff(ai as int, bi as int),
                    ;
                }
                ad * ad
            },
            Metric::L1 => ad,
        };
        proof {
            assert(t == coord_term(m, ai as int, bi as int));
            lemma_dist_upto_nonneg(m, a@, b@, i as int);
            assert((i + 1) * TERM_MAX <= 0xFFFF_FFFF_FFFF_FFFFu128 * TERM_MAX) by (nonlinear_arith)
                requires
                    0 <= i + 1 <= 0xFFFF_FFFF_FFFF_FFFFu128,
            ;
            assert(i * TERM_MAX + TERM_MAX == (i + 1) * TERM_MAX) by (nonlinear_arith);
        }
        acc = acc + (t as u128);
    }
    proof {
        assert(dist_upto(m, a@, b@, n as int) == dist(m, a@, b@));
    }
    acc
}

} // verus!
