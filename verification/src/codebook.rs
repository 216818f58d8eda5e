//! Product-quantization codebook: vectors are split into `M` sub-vectors
//! and each sub-space carries its own small centroid table, so a candidate
//! can be scored approximately from per-sub-space distance tables while the
//! query stays at full precision.
//!
//! The codebook only ever produces estimates; search results are always
//! re-ranked with exact distances, so a stale or coarse codebook degrades
//! recall, never correctness. Training is deterministic: centroids are
//! seeded from evenly spaced training samples.

use crate::dist::{dist, dist_exec, Metric, TERM_MAX};
use crate::index::{IndexError, MAX_DIM};
use vstd::prelude::*;

verus! {

/// An offline-trained quantizer: `centroids[s]` is the centroid table of
/// sub-space `s`, each centroid a `sub_dim`-length block of coordinates.
#[derive(Debug)]
pub struct CompressedCodebook {
    pub dim: usize,
    pub sub_dim: usize,
    pub centroids: Vec<Vec<Vec<i32>>>,
}

/// The `s`-th sub-vector of `v`.
pub open spec fn sub_of(v: Seq<i32>, s: int, sub_dim: int) -> Seq<i32> {
    v.subrange(s * sub_dim, (s + 1) * sub_dim)
}

impl CompressedCodebook {
    pub open spec fn m(&self) -> int {
        self.centroids@.len() as int
    }

    pub open spec fn wf(&self) -> bool {
        &&& 1 <= self.sub_dim
        &&& 1 <= self.dim <= MAX_DIM
        &&& 1 <= self.m()
        &&& self.m() * self.sub_dim == self.dim
        &&& forall|s: int| 0 <= s < self.m() ==> (#[trigger] self.centroids@[s])@.len() >= 1
        &&& forall|s: int, c: int|
            0 <= s < self.m() && 0 <= c < self.centroids@[s]@.len()
                ==> (#[trigger] self.centroids@[s]@[c])@.len() == self.sub_dim
    }

    /// Squared Euclidean distance between one centroid and the matching
    /// sub-vector of `v`.
    pub open spec fn centroid_dist(&self, v: Seq<i32>, s: int, c: int) -> int {
        dist(Metric::L2, self.centroids@[s]@[c]@, sub_of(v, s, self.sub_dim as int))
    }

    /// The approximate distance a code denotes against query `q`: the sum
    /// over the first `s` sub-spaces of the distance from `q`'s sub-vector
    /// to the centroid the code names.
    pub open spec fn approx_upto(&self, code: Seq<usize>, q: Seq<i32>, s: int) -> int
        decreases s,
    {
        if s <= 0 {
            0
        } else {
            self.approx_upto(code, q, s - 1) + self.centroid_dist(q, s - 1, code[s - 1] as int)
        }
    }

    /// Train a codebook with `m` sub-spaces of `k` centroids each, seeded
    /// deterministically from evenly spaced samples.
    pub fn train(dim: usize, m: usize, k: usize, samples: &Vec<Vec<i32>>) -> (res: Result<
        CompressedCodebook,
        IndexError,
    >)
        ensures
            res is Ok <==> (1 <= dim <= MAX_DIM && 1 <= m <= dim && dim % m == 0 && 1 <= k <= 256
                && samples@.len() >= 1 && (forall|j: int|
                0 <= j < samples@.len() ==> (#[trigger] samples@[j])@.len() == dim)),
            res is Err ==> res->Err_0 == IndexError::InvalidParameter,
            res is Ok ==> {
                let cb = res->Ok_0;
                &&& cb.wf()
                &&& cb.dim == dim
                &&& cb.m() == m
            },
    {
        if dim < 1 || dim > MAX_DIM || m < 1 || m > dim || dim % m != 0 || k < 1 || k > 256
            || samples.len() < 1 {
            return Err(IndexError::InvalidParameter);
        }
        let slen = samples.len();
        let mut j: usize = 0;
        while j < slen
            invariant
                slen == samples@.len(),
                0 <= j <= slen,
                forall|x: int| 0 <= x < j ==> (#[trigger] samples@[x])@.len() == dim,
            decreases slen - j,
        {
            if samples[j].len() != dim {
                return Err(IndexError::InvalidParameter);
            }
            j = j + 1;
        }
        let sub_dim = dim / m;
        proof {
            assert(m * sub_dim == dim) by (nonlinear_arith)
                requires
                    m >= 1,
                    dim % m == 0,
                    sub_dim == dim / m,
            ;
            assert(sub_dim >= 1) by (nonlinear_arith)
                requires
                    1 <= m <= dim,
                    sub_dim == dim / m,
            ;
        }
        let kk = if k < slen {
            k
        } else {
            slen
        };
        let stride = slen / kk;
        let mut centroids: Vec<Vec<Vec<i32>>> = Vec::new();
        let mut s: usize = 0;
        while s < m
            invariant
                slen == samples@.len(),
                1 <= kk <= slen,
                stride == slen / kk,
                1 <= sub_dim,
                m * sub_dim == dim,
                1 <= m,
                dim <= MAX_DIM,
                forall|x: int| 0 <= x < slen ==> (#[trigger] samples@[x])@.len() == dim,
                0 <= s <= m,
                centroids@.len() == s,
                forall|s2: int| 0 <= s2 < s ==> (#[trigger] centroids@[s2])@.len() == kk,
                forall|s2: int, c: int|
                    0 <= s2 < s && 0 <= c < centroids@[s2]@.len()
                        ==> (#[trigger] centroids@[s2]@[c])@.len() == sub_dim,
            decreases m - s,
        {
            proof {
                assert(s * sub_dim + sub_dim <= dim) by (nonlinear_arith)
                    requires
                        0 <= s < m,
                        m * sub_dim == dim,
                        sub_dim >= 1,
                ;
            }
            let start = s * sub_dim;
            let mut group: Vec<Vec<i32>> = Vec::new();
            let mut t: usize = 0;
            while t < kk
                invariant
                    slen == samples@.len(),
                    1 <= kk <= slen,
                    stride == slen / kk,
                    forall|x: int| 0 <= x < slen ==> (#[trigger] samples@[x])@.len() == dim,
                    0 <= t <= kk,
                    start + sub_dim <= dim,
                    group@.len() == t,
                    forall|c: int| 0 <= c < t ==> (#[trigger] group@[c])@.len() == sub_dim,
                decreases kk - t,
            {
                proof {
                    assert(t * stride < slen) by (nonlinear_arith)
                        requires
                            0 <= t < kk,
                            1 <= kk <= slen,
                            stride == slen / kk,
                    ;
                }
                let idx = t * stride;
                let sample = &samples[idx];
                let mut cent: Vec<i32> = Vec::new();
                let mut u: usize = 0;
                while u < sub_dim
                    invariant
                        sample@.len() == dim,
                        start + sub_dim <= dim,
                        0 <= u <= sub_dim,
                        cent@.len() == u,
                        forall|x: int| 0 <= x < u ==> (#[trigger] cent@[x]) == sample@[start + x],
                    decreases sub_dim - u,
                {
                    cent.push(sample[start + u]);
                    u = u + 1;
                }
                group.push(cent);
                t = t + 1;
            }
            centroids.push(group);
            s = s + 1;
        }
        let cb = CompressedCodebook { dim, sub_dim, centroids };
        proof {
            assert(cb.wf());
        }
        Ok(cb)
    }

    /// Encode a vector: per sub-space, the index of its nearest centroid.
    pub fn encode(&self, v: &Vec<i32>) -> (code: Vec<usize>)
        requires
            self.wf(),
            v@.len() == self.dim,
        ensures
            code@.len() == self.m(),
            forall|s: int| 0 <= s < self.m() ==> (#[trigger] code@[s]) < self.centroids@[s]@.len(),
            forall|s: int, c: int|
                #![trigger self.centroid_dist(v@, s, c)]
                0 <= s < self.m() && 0 <= c < self.centroids@[s]@.len() ==> self.centroid_dist(
                    v@,
                    s,
                    code@[s] as int,
                ) <= self.centroid_dist(v@, s, c),
    {
        let m = self.centroids.len();
        let sub_dim = self.sub_dim;
        let mut code: Vec<usize> = Vec::new();
        let mut s: usize = 0;
        while s < m
            invariant
                self.wf(),
                v@.len() == self.dim,
                m == self.m(),
                sub_dim == self.sub_dim,
                0 <= s <= m,
                code@.len() == s,
                forall|s2: int|
                    0 <= s2 < s ==> (#[trigger] code@[s2]) < self.centroids@[s2]@.len(),
                forall|s2: int, c: int|
                    #![trigger self.centroid_dist(v@, s2, c)]
                    0 <= s2 < s && 0 <= c < self.centroids@[s2]@.len() ==> self.centroid_dist(
                        v@,
                        s2,
                        code@[s2] as int,
                    ) <= self.centroid_dist(v@, s2, c),
            decreases m - s,
        {
            proof {
                assert(s * sub_dim + sub_dim <= self.dim && (s + 1) * sub_dim == s * sub_dim
                    + sub_dim) by (nonlinear_arith)
                    requires
                        0 <= s < m,
                        m * sub_dim == self.dim,
                        sub_dim >= 1,
                ;
            }
            let start = s * sub_dim;
            let mut sub: Vec<i32> = Vec::new();
            let mut u: usize = 0;
            while u < sub_dim
                invariant
                    v@.len() == self.dim,
                    start + sub_dim <= self.dim,
                    0 <= u <= sub_dim,
                    sub@.len() == u,
                    forall|x: int| 0 <= x < u ==> (#[trigger] sub@[x]) == v@[start + x],
                decreases sub_dim - u,
            {
                sub.push(v[start + u]);
                u = u + 1;
            }
            proof {
                assert(sub@ =~= sub_of(v@, s as int, sub_dim as int));
            }
            let group = &self.centroids[s];
            let glen = group.len();
            let mut best: usize = 0;
            let mut best_d = dist_exec(Metric::L2, &group[0], &sub);
            let mut c: usize = 1;
            while c < glen
                invariant
                    self.wf(),
                    0 <= s < m,
                    m == self.m(),
                    group@ == self.centroids@[s as int]@,
                    glen == group@.len(),
                    sub@ == sub_of(v@, s as int, self.sub_dim as int),
                    sub@.len() == self.sub_dim,
                    1 <= c <= glen,
                    best < c,
                    best_d == self.centroid_dist(v@, s as int, best as int),
                    forall|c2: int|
                        0 <= c2 < c ==> best_d <= self.centroid_dist(v@, s as int, c2),
                decreases glen - c,
            {
                let d = dist_exec(Metric::L2, &group[c], &sub);
                if d < best_d {
                    best = c;
                    best_d = d;
                }
                c = c + 1;
            }
            code.push(best);
            s = s + 1;
        }
        code
    }

    /// The approximate distance of an encoded candidate to a full-precision
    /// query: exactly the distance from the query to the centroids the code
    /// names, summed over the sub-spaces.
    pub fn approx_distance(&self, code: &Vec<usize>, q: &Vec<i32>) -> (r: u128)
        requires
            self.wf(),
            q@.len() == self.dim,
            code@.len() == self.m(),
            forall|s: int| 0 <= s < self.m() ==> (#[trigger] code@[s]) < self.centroids@[s]@.len(),
        ensures
            r == self.approx_upto(code@, q@, self.m()),
    {
        let m = self.centroids.len();
        let sub_dim = self.sub_dim;
        let mut acc: u128 = 0;
        let mut s: usize = 0;
        while s < m
            invariant
                self.wf(),
                q@.len() == self.dim,
                m == self.m(),
                sub_dim == self.sub_dim,
                code@.len() == self.m(),
                forall|s2: int|
                    0 <= s2 < self.m() ==> (#[trigger] code@[s2]) < self.centroids@[s2]@.len(),
                0 <= s <= m,
                acc == self.approx_upto(code@, q@, s as int),
                acc <= (s * sub_dim) * TERM_MAX,
            decreases m - s,
        {
            proof {
                assert(s * sub_dim + sub_dim <= self.dim && (s + 1) * sub_dim == s * sub_dim
                    + sub_dim) by (nonlinear_arith)
                    requires
                        0 <= s < m,
                        m * sub_dim == self.dim,
                        sub_dim >= 1,
                ;
            }
            let start = s * sub_dim;
            let mut sub: Vec<i32> = Vec::new();
            let mut u: usize = 0;
            while u < sub_dim
                invariant
                    q@.len() == self.dim,
                    start + sub_dim <= self.dim,
                    0 <= u <= sub_dim,
                    sub@.len() == u,
                    forall|x: int| 0 <= x < u ==> (#[trigger] sub@[x]) == q@[start + x],
                decreases sub_dim - u,
            {
                sub.push(q[start + u]);
                u = u + 1;
            }
            proof {
                assert(sub@ =~= sub_of(q@, s as int, sub_dim as int));
            }
            let ci = code[s];
            let d = dist_exec(Metric::L2, &self.centroids[s][ci], &sub);
            proof {
                let cv = self.centroids@[s as int]@[ci as int]@;
                crate::dist::lemma_dist_upto_bound(Metric::L2, cv, sub@, cv.len() as int);
                assert(d <= sub_dim * TERM_MAX);
                assert(acc + d <= ((s + 1) * sub_dim) * TERM_MAX) by (nonlinear_arith)
                    requires
                        acc <= (s * sub_dim) * TERM_MAX,
                        d <= sub_dim * TERM_MAX,
                        s >= 0,
                        sub_dim >= 0,
                ;
                assert((s + 1) * sub_dim <= self.dim) by (nonlinear_arith)
                    requires
                        s + 1 <= m,
                        sub_dim >= 0,
                        m * sub_dim == self.dim,
                ;
                assert(((s + 1) * sub_dim) * TERM_MAX <= 0x10_0000u128 * TERM_MAX)
                    by (nonlinear_arith)
                    requires
                        0 <= (s + 1) * sub_dim <= 0x10_0000u128,
                ;
            }
            acc = acc + d;
            s = s + 1;
        }
        acc
    }
}

} // verus!
