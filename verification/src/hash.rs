//! The hash families: sign random projections, L2, MIPS and MinHash.
//!
//! Every family maps a fixed-point input vector to a codeword `Vec<i64>`;
//! each codeword element is specified exactly as a function of the
//! hasher's state and the input.

use vstd::prelude::*;
use crate::dist::{dot_fx, dot_wide, l2_norm, raws_bounded};
use crate::error::Error;
use crate::fx::{floor_div_i128, fx_div, fx_div_raw, fx_mul_checked, fx_mul_raw, Fx};
use crate::rng::{create_rng, rng_next, sample_gauss, sample_permutation, sample_uniform};

verus! {

/// Largest raw magnitude of an input vector entry accepted by the
/// hashers; leaves headroom for exact division and dot products.
pub const INPUT_LIMIT: i64 = 0x4000_0000_0000;

/// Largest raw magnitude of an entry of a sampled projection matrix.
pub const GAUSS_LIMIT: i64 = 393216;

/// Every row of `m` has length `cols` and raw values within `bound`.
pub open spec fn matrix_wf(m: Seq<Vec<Fx>>, cols: int, bound: int) -> bool {
    forall|i: int|
        0 <= i < m.len() ==> (#[trigger] m[i])@.len() == cols && raws_bounded(m[i]@, bound)
}

/// A `k` by `dim` matrix of draws from the bell-shaped distribution.
fn sample_matrix(k: usize, dim: usize, rng: &mut rand::rngs::SmallRng) -> (r: Vec<Vec<Fx>>)
    ensures
        r@.len() == k,
        matrix_wf(r@, dim as int, GAUSS_LIMIT as int),
{
    let mut rows: Vec<Vec<Fx>> = Vec::new();
    let mut i: usize = 0;
    while i < k
        invariant
            i <= k,
            rows@.len() == i,
            matrix_wf(rows@, dim as int, GAUSS_LIMIT as int),
        decreases k - i,
    {
        let mut row: Vec<Fx> = Vec::new();
        let mut j: usize = 0;
        while j < dim
            invariant
                j <= dim,
                row@.len() == j,
                raws_bounded(row@, GAUSS_LIMIT as int),
            decreases dim - j,
        {
            let g = sample_gauss(rng);
            row.push(g);
            j += 1;
        }
        rows.push(row);
        i += 1;
    }
    rows
}

/// A family of hashers for the cosine similarity.
#[derive(Clone, Debug)]
pub struct SignRandomProjections {
    /// Random hyperplanes; the sign of each projection gives one bit.
    pub hyperplanes: Vec<Vec<Fx>>,
    /// Dimension of the input vectors.
    pub dim: usize,
}

/// One element of a sign-random-projections codeword: one when the
/// projection on hyperplane `i` is positive, zero otherwise.
pub open spec fn srp_code_at(planes: Seq<Vec<Fx>>, v: Seq<Fx>, i: int) -> i64 {
    if dot_wide(planes[i]@, v) > 0 {
        1i64
    } else {
        0i64
    }
}

/// The sign-random-projections codeword of `v`.
pub open spec fn srp_code(planes: Seq<Vec<Fx>>, v: Seq<Fx>) -> Seq<i64> {
    Seq::new(planes.len(), |i: int| srp_code_at(planes, v, i))
}

impl SignRandomProjections {
    /// The hasher's state is well formed.
    pub open spec fn wf(self) -> bool {
        &&& matrix_wf(self.hyperplanes@, self.dim as int, GAUSS_LIMIT as int)
        &&& self.dim <= 0x1_0000_0000
    }

    /// Codeword length.
    pub open spec fn k(self) -> int {
        self.hyperplanes@.len() as int
    }

    /// A hasher with `k` random hyperplanes over `dim` dimensions.
    pub fn new(k: usize, dim: usize, seed: u64) -> (h: SignRandomProjections)
        requires
            dim <= 0x1_0000_0000,
        ensures
            h.wf(),
            h.k() == k,
            h.dim == dim,
    {
        let mut rng = create_rng(seed);
        let hp = sample_matrix(k, dim, &mut rng);
        SignRandomProjections { hyperplanes: hp, dim }
    }

    /// The codeword of `v`: the sign bit of each projection.
    pub fn hash_vec_query(&self, v: &[Fx]) -> (r: Vec<i64>)
        requires
            self.wf(),
            v@.len() == self.dim,
            raws_bounded(v@, INPUT_LIMIT as int),
        ensures
            r@ == srp_code(self.hyperplanes@, v@),
            r@.len() == self.k(),
    {
        let mut out: Vec<i64> = Vec::new();
        let k = self.hyperplanes.len();
        let mut i: usize = 0;
        while i < k
            invariant
                i <= k,
                k == self.hyperplanes@.len(),
                out@.len() == i,
                self.wf(),
                v@.len() == self.dim,
                raws_bounded(v@, INPUT_LIMIT as int),
                forall|j: int|
                    0 <= j < i ==> out@[j] == srp_code_at(self.hyperplanes@, v@, j),
            decreases k - i,
        {
            let row = &self.hyperplanes[i];
            let s = dot_fx(row.as_slice(), v);
            if s > 0 {
                out.push(1);
            } else {
                out.push(0);
            }
            i += 1;
        }
        proof {
            assert(out@ =~= srp_code(self.hyperplanes@, v@));
        }
        out
    }
}

/// L2-distance hasher family.
#[derive(Clone, Debug)]
pub struct L2 {
    /// Random projection matrix.
    pub a: Vec<Vec<Fx>>,
    /// Per-projection offsets, drawn uniformly on `[0, r)`.
    pub b: Vec<Fx>,
    /// Slot width; positive.
    pub r: Fx,
    /// Dimension of the input vectors.
    pub dim: usize,
}

/// One element of an L2 codeword: the floor of
/// `(a[i] . v + b[i]) / r`, written over raw values.
pub open spec fn l2_code_at(h: L2, v: Seq<Fx>, i: int) -> int {
    (dot_wide(h.a@[i]@, v) + h.b@[i].raw * 65536) / (h.r.raw * 65536)
}

/// Every element of the L2 codeword of `v` fits the element range.
pub open spec fn l2_code_ok(h: L2, v: Seq<Fx>) -> bool {
    forall|i: int|
        0 <= i < h.a@.len() ==> -0x4000_0000_0000_0000 <= #[trigger] l2_code_at(h, v, i)
            <= 0x4000_0000_0000_0000
}

/// The L2 codeword of `v`.
pub open spec fn l2_code(h: L2, v: Seq<Fx>) -> Seq<i64> {
    Seq::new(h.a@.len(), |i: int| l2_code_at(h, v, i) as i64)
}

impl L2 {
    /// The hasher's state is well formed.
    pub open spec fn wf(self) -> bool {
        &&& matrix_wf(self.a@, self.dim as int, GAUSS_LIMIT as int)
        &&& self.b@.len() == self.a@.len()
        &&& 0 < self.r.raw <= 0x8000_0000_0000
        &&& forall|i: int| 0 <= i < self.b@.len() ==> 0 <= (#[trigger] self.b@[i]).raw < self.r.raw
        &&& self.dim <= 0x1_0000_0000
    }

    /// Codeword length.
    pub open spec fn k(self) -> int {
        self.a@.len() as int
    }

    /// A hasher of `n_projections` random projections over `dim`
    /// dimensions with slot width `r`.
    pub fn new(dim: usize, r: Fx, n_projections: usize, seed: u64) -> (h: L2)
        requires
            dim <= 0x1_0000_0000,
            0 < r.raw <= 0x8000_0000_0000,
        ensures
            h.wf(),
            h.k() == n_projections,
            h.dim == dim,
            h.r == r,
    {
        let mut rng = create_rng(seed);
        let a = sample_matrix(n_projections, dim, &mut rng);
        let mut b: Vec<Fx> = Vec::new();
        let mut i: usize = 0;
        while i < n_projections
            invariant
                i <= n_projections,
                b@.len() == i,
                r.raw > 0,
                forall|j: int| 0 <= j < i ==> 0 <= (#[trigger] b@[j]).raw < r.raw,
            decreases n_projections - i,
        {
            let off = sample_uniform(&mut rng, r.raw);
            b.push(off);
            i += 1;
        }
        L2 { a, b, r, dim }
    }

    /// The codeword of `v`, or [`Error::HashOverflow`] exactly when some
    /// element does not fit the element range.
    pub fn hash_vec_query(&self, v: &[Fx]) -> (r: Result<Vec<i64>, Error>)
        requires
            self.wf(),
            v@.len() == self.dim,
            raws_bounded(v@, INPUT_LIMIT as int),
        ensures
            match r {
                Ok(c) => l2_code_ok(*self, v@) && c@ == l2_code(*self, v@) && c@.len()
                    == self.k(),
                Err(e) => e == Error::HashOverflow && !l2_code_ok(*self, v@),
            },
    {
        let mut out: Vec<i64> = Vec::new();
        let k = self.a.len();
        let mut i: usize = 0;
        while i < k
            invariant
                i <= k,
                k == self.a@.len(),
                out@.len() == i,
                self.wf(),
                v@.len() == self.dim,
                raws_bounded(v@, INPUT_LIMIT as int),
                forall|j: int|
                    0 <= j < i ==> -0x4000_0000_0000_0000 <= #[trigger] l2_code_at(*self, v@, j)
                        <= 0x4000_0000_0000_0000,
                forall|j: int| 0 <= j < i ==> out@[j] == l2_code_at(*self, v@, j) as i64,
            decreases k - i,
        {
            let row = &self.a[i];
            let s = dot_fx(row.as_slice(), v);
            let off: i128 = (self.b[i].raw as i128) * 65536;
            let den: i128 = (self.r.raw as i128) * 65536;
            let num: i128 = s + off;
            let q = floor_div_i128(num, den);
            if q < -0x4000_0000_0000_0000i128 || q > 0x4000_0000_0000_0000i128 {
                proof {
                    assert(l2_code_at(*self, v@, i as int) == q);
                    assert(!l2_code_ok(*self, v@));
                }
                return Err(Error::HashOverflow);
            }
            out.push(q as i64);
            i += 1;
        }
        proof {
            assert(out@ =~= l2_code(*self, v@));
        }
        Ok(out)
    }
}

/// Maximum-inner-product-search hasher: an asymmetric pair of transforms
/// in front of an L2 hasher over `dim + m` dimensions.
#[derive(Clone, Debug)]
pub struct MIPS {
    /// Shrink factor `U`, strictly between zero and one.
    pub u: Fx,
    /// Largest L2 norm of the fitted data (`M`); zero until `fit`.
    pub m_max: Fx,
    /// Number of appended norm-power coordinates.
    pub m: usize,
    /// Dimension of the input vectors.
    pub dim: usize,
    /// The wrapped L2 hasher over `dim + m` dimensions.
    pub hasher: L2,
}

/// Raw value of one scaled coordinate of the put transform:
/// `x[j] / M * U`, each step rounding toward minus infinity.
pub open spec fn mips_scaled_at(h: MIPS, x: Seq<Fx>, j: int) -> int {
    fx_mul_raw(fx_div_raw(x[j].raw as int, h.m_max.raw as int), h.u.raw as int)
}

/// The scaled prefix of the put transform.
pub open spec fn mips_scaled(h: MIPS, x: Seq<Fx>) -> Seq<Fx> {
    Seq::new(x.len(), |j: int| Fx { raw: mips_scaled_at(h, x, j) as i64 })
}

/// Raw value of the squared norm of the scaled vector.
pub open spec fn mips_norm_sq(h: MIPS, x: Seq<Fx>) -> int {
    let n = crate::dist::floor_sqrt(dot_wide(mips_scaled(h, x), mips_scaled(h, x)));
    fx_mul_raw(n, n)
}

/// The `i`-th power (one-based) of a squared norm under fixed-point
/// multiplication.
pub open spec fn pow_chain(nsq: int, i: int) -> int
    decreases i,
{
    if i <= 1 {
        nsq
    } else {
        fx_mul_raw(pow_chain(nsq, i - 1), nsq)
    }
}

/// The put transform stays within the hashers' input range: every scaled
/// coordinate, the norm, and every norm power is small enough.
pub open spec fn mips_put_ok(h: MIPS, x: Seq<Fx>) -> bool {
    &&& forall|j: int|
        0 <= j < x.len() ==> -0x4000_0000_0000 <= #[trigger] mips_scaled_at(h, x, j)
            <= 0x4000_0000_0000
    &&& crate::dist::floor_sqrt(dot_wide(mips_scaled(h, x), mips_scaled(h, x)))
        <= 0x80_0000_0000
    &&& forall|i: int|
        1 <= i <= h.m ==> -0x4000_0000_0000 <= #[trigger] pow_chain(mips_norm_sq(h, x), i)
            <= 0x4000_0000_0000
}

/// The put transform of `x`: the scaled coordinates followed by the first
/// `m` powers of the squared norm.
pub open spec fn mips_put_vec(h: MIPS, x: Seq<Fx>) -> Seq<Fx> {
    mips_scaled(h, x) + Seq::new(
        h.m as nat,
        |i: int| Fx { raw: pow_chain(mips_norm_sq(h, x), i + 1) as i64 },
    )
}

impl MIPS {
    /// The hasher's state is well formed.
    pub open spec fn wf(self) -> bool {
        &&& self.hasher.wf()
        &&& self.hasher.dim == self.dim + self.m
        &&& 0 < self.u.raw < 65536
        &&& self.m >= 1
        &&& self.m_max.raw >= 0
        &&& self.dim + self.m <= 0xffff_ffff
    }

    /// Whether `fit` has recorded a positive largest norm; insertion
    /// hashing is allowed only then.
    pub open spec fn fitted(self) -> bool {
        self.m_max.raw > 0
    }

    /// Codeword length.
    pub open spec fn k(self) -> int {
        self.hasher.k()
    }

    /// A MIPS hasher over `dim` dimensions with slot width `r`, shrink
    /// factor `u` and `m` appended coordinates.
    pub fn new(dim: usize, r: Fx, u: Fx, m: usize, n_projections: usize, seed: u64) -> (h: MIPS)
        requires
            1 <= m,
            dim + m <= 0xffff_ffff,
            0 < r.raw <= 0x8000_0000_0000,
            0 < u.raw < 65536,
        ensures
            h.wf(),
            !h.fitted(),
            h.k() == n_projections,
            h.dim == dim,
            h.m == m,
    {
        let l2 = L2::new(dim + m, r, n_projections, seed);
        MIPS { u, m_max: Fx { raw: 0 }, m, dim, hasher: l2 }
    }

    /// Record the largest L2 norm of the given data set; the hasher is
    /// fitted afterwards exactly when some vector has a nonzero norm.
    pub fn fit(&mut self, vs: &Vec<Vec<Fx>>)
        requires
            old(self).wf(),
            forall|i: int|
                0 <= i < vs@.len() ==> (#[trigger] vs@[i])@.len() <= 0x1_0000_0000
                    && raws_bounded(vs@[i]@, 0x4000_0000_0000),
        ensures
            final(self).wf(),
            final(self).u == old(self).u,
            final(self).m == old(self).m,
            final(self).dim == old(self).dim,
            final(self).hasher == old(self).hasher,
            final(self).m_max.raw == max_norm_raw(vs@),
    {
        let mut best: i64 = 0;
        let mut i: usize = 0;
        while i < vs.len()
            invariant
                i <= vs@.len(),
                forall|j: int|
                    0 <= j < vs@.len() ==> (#[trigger] vs@[j])@.len() <= 0x1_0000_0000
                        && raws_bounded(vs@[j]@, 0x4000_0000_0000),
                best == max_norm_raw(vs@.take(i as int)),
                best >= 0,
            decreases vs@.len() - i,
        {
            let n = l2_norm(vs[i].as_slice());
            proof {
                assert(vs@.take(i + 1).drop_last() =~= vs@.take(i as int));
            }
            if n.raw > best {
                best = n.raw;
            }
            i += 1;
        }
        proof {
            assert(vs@.take(vs@.len() as int) =~= vs@);
        }
        self.m_max = Fx { raw: best };
    }

    /// The put transform: shrink every coordinate by `U / M`, then append
    /// the powers `1 ..= m` of the squared norm of the shrunk vector.
    /// Fails with [`Error::HashOverflow`] exactly when the transform
    /// leaves the hashers' input range.
    pub fn tranform_put(&self, x: &[Fx]) -> (r: Result<Vec<Fx>, Error>)
        requires
            self.wf(),
            self.fitted(),
            x@.len() == self.dim,
            raws_bounded(x@, INPUT_LIMIT as int),
        ensures
            match r {
                Ok(t) => mips_put_ok(*self, x@) && t@ == mips_put_vec(*self, x@) && t@.len()
                    == self.dim + self.m && raws_bounded(t@, 0x4000_0000_0000),
                Err(e) => e == Error::HashOverflow && !mips_put_ok(*self, x@),
            },
    {
        let mut out: Vec<Fx> = Vec::new();
        let dim = x.len();
        let mut j: usize = 0;
        while j < dim
            invariant
                j <= dim,
                dim == x@.len(),
                self.wf(),
                self.fitted(),
                raws_bounded(x@, INPUT_LIMIT as int),
                out@.len() == j,
                forall|t: int|
                    0 <= t < j ==> -0x4000_0000_0000 <= #[trigger] mips_scaled_at(*self, x@, t)
                        <= 0x4000_0000_0000,
                forall|t: int|
                    0 <= t < j ==> (#[trigger] out@[t]).raw == mips_scaled_at(*self, x@, t),
            decreases dim - j,
        {
            proof {
                crate::fx::lemma_div_shrinks_magnitude(
                    x@[j as int].raw * 65536,
                    self.m_max.raw as int,
                );
                crate::fx::lemma_mul_shrinks_magnitude(
                    fx_div_raw(x@[j as int].raw as int, self.m_max.raw as int),
                    self.u.raw as int,
                );
            }
            let d = fx_div(x[j], self.m_max);
            let s = crate::fx::fx_mul(d, self.u);
            proof {
                assert(s.raw == mips_scaled_at(*self, x@, j as int));
            }
            if s.raw < -0x4000_0000_0000 || s.raw > 0x4000_0000_0000 {
                proof {
                    assert(!mips_put_ok(*self, x@));
                }
                return Err(Error::HashOverflow);
            }
            out.push(s);
            j += 1;
        }
        proof {
            assert(out@ =~= mips_scaled(*self, x@));
        }
        let n = l2_norm(out.as_slice());
        if n.raw > 0x80_0000_0000 {
            proof {
                assert(!mips_put_ok(*self, x@));
            }
            return Err(Error::HashOverflow);
        }
        proof {
            assert(0 <= fx_mul_raw(n.raw as int, n.raw as int) <= 0x4000_0000_0000_0000)
                by (nonlinear_arith)
                requires
                    0 <= n.raw <= 0x80_0000_0000,
            ;
        }
        let nsq = crate::fx::fx_mul(n, n);
        let ghost gnsq = mips_norm_sq(*self, x@);
        proof {
            assert(nsq.raw == gnsq);
        }
        if nsq.raw < -0x4000_0000_0000 || nsq.raw > 0x4000_0000_0000 {
            proof {
                assert(pow_chain(gnsq, 1) == gnsq);
            }
            return Err(Error::HashOverflow);
        }
        let mut p = nsq;
        let mut i: usize = 1;
        let ghost scaled_len = x@.len() as int;
        out.push(p);
        proof {
            assert(out@.take(scaled_len) =~= mips_scaled(*self, x@));
        }
        while i < self.m
            invariant
                1 <= i <= self.m,
                self.wf(),
                nsq.raw == gnsq,
                gnsq == mips_norm_sq(*self, x@),
                -0x4000_0000_0000 <= nsq.raw <= 0x4000_0000_0000,
                p.raw == pow_chain(gnsq, i as int),
                -0x4000_0000_0000 <= p.raw <= 0x4000_0000_0000,
                out@.len() == x@.len() + i,
                out@.take(x@.len() as int) == mips_scaled(*self, x@),
                forall|t: int|
                    0 <= t < i ==> (#[trigger] out@[x@.len() + t]).raw == pow_chain(gnsq, t + 1),
                forall|t: int|
                    1 <= t <= i ==> -0x4000_0000_0000 <= #[trigger] pow_chain(gnsq, t)
                        <= 0x4000_0000_0000,
                forall|t: int|
                    0 <= t < x@.len() ==> -0x4000_0000_0000 <= #[trigger] mips_scaled_at(
                        *self,
                        x@,
                        t,
                    ) <= 0x4000_0000_0000,
                forall|t: int|
                    0 <= t < x@.len() ==> (#[trigger] out@[t]).raw == mips_scaled_at(
                        *self,
                        x@,
                        t,
                    ),
            decreases self.m - i,
        {
            let next = match fx_mul_checked(p, nsq) {
                Ok(q) => q,
                Err(e) => {
                    proof {
                        assert(pow_chain(gnsq, i + 1) == fx_mul_raw(
                            pow_chain(gnsq, i as int),
                            gnsq,
                        ));
                    }
                    return Err(Error::HashOverflow);
                },
            };
            if next.raw < -0x4000_0000_0000 || next.raw > 0x4000_0000_0000 {
                proof {
                    assert(pow_chain(gnsq, i + 1) == fx_mul_raw(
                        pow_chain(gnsq, i as int),
                        gnsq,
                    ));
                }
                return Err(Error::HashOverflow);
            }
            p = next;
            out.push(p);
            i += 1;
            proof {
                assert(out@.take(x@.len() as int) =~= mips_scaled(*self, x@));
            }
        }
        proof {
            let target = mips_put_vec(*self, x@);
            assert forall|t: int| 0 <= t < out@.len() implies out@[t] == target[t] by {
                if t < x@.len() {
                    assert(out@[t].raw == mips_scaled_at(*self, x@, t));
                    assert(target[t] == mips_scaled(*self, x@)[t]);
                } else {
                    let u = t - x@.len();
                    assert(out@[x@.len() + u].raw == pow_chain(gnsq, u + 1));
                    assert(target[t] == Seq::new(
                        self.m as nat,
                        |i: int| Fx { raw: pow_chain(mips_norm_sq(*self, x@), i + 1) as i64 },
                    )[u]);
                }
            }
            assert(out@ =~= mips_put_vec(*self, x@));
        }
        Ok(out)
    }

    /// The query transform: divide every coordinate by the query's norm,
    /// then append `m` coordinates of one half.  Fails with
    /// [`Error::Failed`] when the query has zero norm and with
    /// [`Error::HashOverflow`] when a normalized coordinate leaves the
    /// hashers' input range.
    pub fn transform_query(&self, x: &[Fx]) -> (r: Result<Vec<Fx>, Error>)
        requires
            self.wf(),
            x@.len() == self.dim,
            raws_bounded(x@, INPUT_LIMIT as int),
        ensures
            match r {
                Ok(t) => mips_query_ok(*self, x@) && t@ == mips_query_vec(*self, x@) && t@.len()
                    == self.dim + self.m && raws_bounded(t@, 0x4000_0000_0000),
                Err(e) => !mips_query_ok(*self, x@) && (e == Error::Failed || e
                    == Error::HashOverflow),
            },
    {
        let n = l2_norm(x);
        if n.raw == 0 {
            return Err(Error::Failed);
        }
        let mut out: Vec<Fx> = Vec::new();
        let dim = x.len();
        let mut j: usize = 0;
        while j < dim
            invariant
                j <= dim,
                dim == x@.len(),
                self.wf(),
                raws_bounded(x@, INPUT_LIMIT as int),
                n.raw == crate::dist::floor_sqrt(dot_wide(x@, x@)),
                n.raw > 0,
                out@.len() == j,
                forall|t: int|
                    0 <= t < j ==> -0x4000_0000_0000 <= #[trigger] fx_div_raw(
                        x@[t].raw as int,
                        crate::dist::floor_sqrt(dot_wide(x@, x@)),
                    ) <= 0x4000_0000_0000,
                forall|t: int|
                    0 <= t < j ==> (#[trigger] out@[t]).raw == fx_div_raw(
                        x@[t].raw as int,
                        crate::dist::floor_sqrt(dot_wide(x@, x@)),
                    ),
            decreases dim - j,
        {
            proof {
                crate::fx::lemma_div_shrinks_magnitude(
                    x@[j as int].raw * 65536,
                    n.raw as int,
                );
            }
            let d = fx_div(x[j], n);
            if d.raw < -0x4000_0000_0000 || d.raw > 0x4000_0000_0000 {
                return Err(Error::HashOverflow);
            }
            out.push(d);
            j += 1;
        }
        let mut i: usize = 0;
        while i < self.m
            invariant
                i <= self.m,
                out@.len() == x@.len() + i,
                forall|t: int|
                    0 <= t < x@.len() + i ==> -0x4000_0000_0000 <= (#[trigger] out@[t]).raw
                        <= 0x4000_0000_0000,
                forall|t: int|
                    x@.len() <= t < x@.len() + i ==> (#[trigger] out@[t]).raw == 32768,
                forall|t: int|
                    0 <= t < x@.len() ==> (#[trigger] out@[t]).raw == fx_div_raw(
                        x@[t].raw as int,
                        crate::dist::floor_sqrt(dot_wide(x@, x@)),
                    ),
            decreases self.m - i,
        {
            out.push(Fx { raw: 32768 });
            i += 1;
        }
        proof {
            assert(out@ =~= mips_query_vec(*self, x@));
        }
        Ok(out)
    }

    /// The insertion codeword: the L2 codeword of the put transform.
    pub fn hash_vec_put(&self, v: &[Fx]) -> (r: Result<Vec<i64>, Error>)
        requires
            self.wf(),
            self.fitted(),
            v@.len() == self.dim,
            raws_bounded(v@, INPUT_LIMIT as int),
        ensures
            match r {
                Ok(c) => mips_put_code(*self, v@) == Some(c@) && c@.len() == self.k(),
                Err(e) => mips_put_code(*self, v@) is None && e == Error::HashOverflow,
            },
    {
        let t = match self.tranform_put(v) {
            Ok(t) => t,
            Err(e) => {
                return Err(e);
            },
        };
        self.hasher.hash_vec_query(t.as_slice())
    }

    /// The query codeword: the L2 codeword of the query transform.
    pub fn hash_vec_query(&self, v: &[Fx]) -> (r: Result<Vec<i64>, Error>)
        requires
            self.wf(),
            v@.len() == self.dim,
            raws_bounded(v@, INPUT_LIMIT as int),
        ensures
            match r {
                Ok(c) => mips_query_code(*self, v@) == Some(c@) && c@.len() == self.k(),
                Err(e) => mips_query_code(*self, v@) is None && (e == Error::Failed || e
                    == Error::HashOverflow),
            },
    {
        let t = match self.transform_query(v) {
            Ok(t) => t,
            Err(e) => {
                return Err(e);
            },
        };
        self.hasher.hash_vec_query(t.as_slice())
    }
}

/// Largest raw norm over a data set; zero for an empty set.
pub open spec fn max_norm_raw(vs: Seq<Vec<Fx>>) -> int
    decreases vs.len(),
{
    if vs.len() == 0 {
        0
    } else {
        let rest = max_norm_raw(vs.drop_last());
        let n = crate::dist::floor_sqrt(dot_wide(vs.last()@, vs.last()@));
        if n > rest {
            n
        } else {
            rest
        }
    }
}

/// The query transform stays within the hashers' input range: the query
/// has a positive norm and every normalized coordinate is small enough.
pub open spec fn mips_query_ok(h: MIPS, x: Seq<Fx>) -> bool {
    &&& crate::dist::floor_sqrt(dot_wide(x, x)) > 0
    &&& forall|t: int|
        0 <= t < x.len() ==> -0x4000_0000_0000 <= #[trigger] fx_div_raw(
            x[t].raw as int,
            crate::dist::floor_sqrt(dot_wide(x, x)),
        ) <= 0x4000_0000_0000
}

/// The query transform of `x`: the normalized coordinates followed by
/// `m` halves.
pub open spec fn mips_query_vec(h: MIPS, x: Seq<Fx>) -> Seq<Fx> {
    Seq::new(
        (x.len() + h.m) as nat,
        |t: int|
            if t < x.len() {
                Fx {
                    raw: fx_div_raw(
                        x[t].raw as int,
                        crate::dist::floor_sqrt(dot_wide(x, x)),
                    ) as i64,
                }
            } else {
                Fx { raw: 32768 }
            },
    )
}

/// The insertion codeword of a MIPS hasher, absent exactly when the put
/// transform or the wrapped L2 hasher leaves its range.
pub open spec fn mips_put_code(h: MIPS, x: Seq<Fx>) -> Option<Seq<i64>> {
    if mips_put_ok(h, x) && l2_code_ok(h.hasher, mips_put_vec(h, x)) {
        Some(l2_code(h.hasher, mips_put_vec(h, x)))
    } else {
        None
    }
}

/// The query codeword of a MIPS hasher, absent exactly when the query
/// transform or the wrapped L2 hasher leaves its range.
pub open spec fn mips_query_code(h: MIPS, x: Seq<Fx>) -> Option<Seq<i64>> {
    if mips_query_ok(h, x) && l2_code_ok(h.hasher, mips_query_vec(h, x)) {
        Some(l2_code(h.hasher, mips_query_vec(h, x)))
    } else {
        None
    }
}

/// A hash family for the Jaccard index, built from random permutations.
#[derive(Clone, Debug)]
pub struct MinHash {
    /// One permutation of `1 ..= dim` per projection.
    pub pi: Vec<Vec<i64>>,
    /// Dimension of the input vectors.
    pub dim: usize,
}

/// The integer value of an input coordinate: the floor of the scalar.
pub open spec fn mh_e(v: Seq<Fx>, j: int) -> int {
    (v[j].raw as int) / 65536
}

/// The elementwise product of a permutation entry and an input value.
pub open spec fn mh_prod(row: Seq<i64>, v: Seq<Fx>, j: int) -> int {
    row[j] * mh_e(v, j)
}

/// Whether some product among the first `n` coordinates is positive.
pub open spec fn mh_has(row: Seq<i64>, v: Seq<Fx>, n: int) -> bool
    decreases n,
{
    if n <= 0 {
        false
    } else {
        mh_has(row, v, n - 1) || mh_prod(row, v, n - 1) > 0
    }
}

/// The least positive product among the first `n` coordinates; zero when
/// there is none.
pub open spec fn mh_best(row: Seq<i64>, v: Seq<Fx>, n: int) -> int
    decreases n,
{
    if n <= 0 {
        0
    } else {
        let p = mh_prod(row, v, n - 1);
        let rest = mh_best(row, v, n - 1);
        if !mh_has(row, v, n - 1) {
            if p > 0 {
                p
            } else {
                0
            }
        } else if p > 0 && p < rest {
            p
        } else {
            rest
        }
    }
}

/// One element of a MinHash codeword: the least positive product of the
/// permutation row with the input, or `dim` when every product is zero or
/// negative.
pub open spec fn minhash_code_at(h: MinHash, v: Seq<Fx>, i: int) -> int {
    if mh_has(h.pi@[i]@, v, h.dim as int) {
        mh_best(h.pi@[i]@, v, h.dim as int)
    } else {
        h.dim as int
    }
}

/// The MinHash codeword of `v`.
pub open spec fn minhash_code(h: MinHash, v: Seq<Fx>) -> Seq<i64> {
    Seq::new(h.pi@.len(), |i: int| minhash_code_at(h, v, i) as i64)
}

impl MinHash {
    /// The hasher's state is well formed: every row is a permutation of
    /// `1 ..= dim`, each value appearing exactly once.
    pub open spec fn wf(self) -> bool {
        &&& 1 <= self.dim <= 0x7fff_ffff
        &&& forall|i: int|
            0 <= i < self.pi@.len() ==> (#[trigger] self.pi@[i])@.len() == self.dim
                && (forall|j: int|
                0 <= j < self.dim ==> 1 <= #[trigger] self.pi@[i]@[j] <= self.dim) && (forall|
                x: int,
                y: int,
            |
                0 <= x < y < self.dim ==> self.pi@[i]@[x] != self.pi@[i]@[y])
    }

    /// Codeword length.
    pub open spec fn k(self) -> int {
        self.pi@.len() as int
    }

    /// A hasher of `n_projections` random permutations of `1 ..= dim`.
    pub fn new(n_projections: usize, dim: usize, seed: u64) -> (h: MinHash)
        requires
            1 <= dim <= 0x7fff_ffff,
        ensures
            h.wf(),
            h.k() == n_projections,
            h.dim == dim,
    {
        let mut rng = create_rng(seed);
        let mut pi: Vec<Vec<i64>> = Vec::new();
        let mut i: usize = 0;
        while i < n_projections
            invariant
                i <= n_projections,
                pi@.len() == i,
                1 <= dim <= 0x7fff_ffff,
                forall|t: int|
                    0 <= t < i ==> (#[trigger] pi@[t])@.len() == dim && (forall|j: int|
                        0 <= j < dim ==> 1 <= #[trigger] pi@[t]@[j] <= dim) && (forall|
                        x: int,
                        y: int,
                    |
                        0 <= x < y < dim ==> pi@[t]@[x] != pi@[t]@[y]),
            decreases n_projections - i,
        {
            let row = sample_permutation(&mut rng, dim);
            pi.push(row);
            i += 1;
        }
        MinHash { pi, dim }
    }

    /// The codeword of `v`: per row, the least positive product with the
    /// input, or `dim` when there is none.
    pub fn hash_vec_query(&self, v: &[Fx]) -> (r: Vec<i64>)
        requires
            self.wf(),
            v@.len() == self.dim,
            raws_bounded(v@, INPUT_LIMIT as int),
        ensures
            r@ == minhash_code(*self, v@),
            r@.len() == self.k(),
            forall|j: int|
                0 <= j < r@.len() ==> 0 <= #[trigger] r@[j] <= 0x4000_0000_0000_0000,
    {
        let mut out: Vec<i64> = Vec::new();
        let k = self.pi.len();
        let mut i: usize = 0;
        while i < k
            invariant
                i <= k,
                k == self.pi@.len(),
                out@.len() == i,
                self.wf(),
                v@.len() == self.dim,
                raws_bounded(v@, INPUT_LIMIT as int),
                forall|t: int| 0 <= t < i ==> out@[t] == minhash_code_at(*self, v@, t) as i64,
                forall|t: int| 0 <= t < i ==> 0 <= #[trigger] out@[t] <= 0x4000_0000_0000_0000,
            decreases k - i,
        {
            let row = &self.pi[i];
            let mut found = false;
            let mut best: i64 = 0;
            let mut j: usize = 0;
            while j < row.len()
                invariant
                    j <= row@.len(),
                    row@ == self.pi@[i as int]@,
                    i < self.pi@.len(),
                    row@.len() == self.dim,
                    self.wf(),
                    v@.len() == self.dim,
                    raws_bounded(v@, INPUT_LIMIT as int),
                    found == mh_has(row@, v@, j as int),
                    found ==> best == mh_best(row@, v@, j as int),
                    !found ==> best == 0,
                    0 <= best <= 0x2000_0000_0000_0000,
                decreases row@.len() - j,
            {
                proof {
                    assert(1 <= row@[j as int] <= self.dim);
                }
                let e = crate::fx::fx_floor(v[j]);
                proof {
                    assert(-0x4000_0000 <= e <= 0x4000_0000) by (nonlinear_arith)
                        requires
                            -0x4000_0000_0000 <= v@[j as int].raw <= 0x4000_0000_0000,
                            e == v@[j as int].raw as int / 65536,
                    ;
                    assert(row@[j as int] * e <= 0x2000_0000_0000_0000 && row@[j as int] * e
                        >= -0x2000_0000_0000_0000) by (nonlinear_arith)
                        requires
                            1 <= row@[j as int] <= 0x7fff_ffff,
                            -0x4000_0000 <= e <= 0x4000_0000,
                    ;
                }
                let p = row[j] * e;
                if p > 0 && (!found || p < best) {
                    best = p;
                    found = true;
                }
                j += 1;
            }
            if found {
                out.push(best);
            } else {
                out.push(self.dim as i64);
            }
            i += 1;
        }
        proof {
            assert(out@ =~= minhash_code(*self, v@));
        }
        out
    }
}

/// A hasher of one of the four families.
#[derive(Clone, Debug)]
pub enum Hasher {
    /// Sign random projections, for the cosine similarity.
    Srp(SignRandomProjections),
    /// The L2-distance family.
    L2(L2),
    /// The asymmetric maximum-inner-product family.
    Mips(MIPS),
    /// The permutation family for the Jaccard index.
    MinHash(MinHash),
}

impl Hasher {
    /// The hasher's state is well formed.
    pub open spec fn wf(self) -> bool {
        match self {
            Hasher::Srp(h) => h.wf(),
            Hasher::L2(h) => h.wf(),
            Hasher::Mips(h) => h.wf(),
            Hasher::MinHash(h) => h.wf(),
        }
    }

    /// Codeword length.
    pub open spec fn k(self) -> int {
        match self {
            Hasher::Srp(h) => h.k(),
            Hasher::L2(h) => h.k(),
            Hasher::Mips(h) => h.k(),
            Hasher::MinHash(h) => h.k(),
        }
    }

    /// Dimension of the accepted input vectors.
    pub open spec fn dim_spec(self) -> int {
        match self {
            Hasher::Srp(h) => h.dim as int,
            Hasher::L2(h) => h.dim as int,
            Hasher::Mips(h) => h.dim as int,
            Hasher::MinHash(h) => h.dim as int,
        }
    }

    /// Whether insertion hashing is allowed: a MIPS hasher must have been
    /// fitted first.
    pub open spec fn put_ready(self) -> bool {
        match self {
            Hasher::Mips(h) => h.fitted(),
            _ => true,
        }
    }

    /// Whether insertion and query codes always agree: true for every
    /// family but MIPS.
    pub open spec fn symmetric(self) -> bool {
        !(self is Mips)
    }

    /// The family's query codeword, absent exactly when the computation
    /// leaves the representable range.
    pub open spec fn query_code(self, v: Seq<Fx>) -> Option<Seq<i64>> {
        match self {
            Hasher::Srp(h) => Some(srp_code(h.hyperplanes@, v)),
            Hasher::L2(h) => if l2_code_ok(h, v) {
                Some(l2_code(h, v))
            } else {
                None
            },
            Hasher::Mips(h) => mips_query_code(h, v),
            Hasher::MinHash(h) => Some(minhash_code(h, v)),
        }
    }

    /// The family's insertion codeword; for MIPS this applies the put
    /// transform, every other family reuses the query codeword.
    pub open spec fn put_code(self, v: Seq<Fx>) -> Option<Seq<i64>> {
        match self {
            Hasher::Mips(h) => mips_put_code(h, v),
            _ => self.query_code(v),
        }
    }

    /// The query codeword of `v`; fails exactly when the codeword is
    /// absent.
    pub fn hash_vec_query(&self, v: &[Fx]) -> (r: Result<Vec<i64>, Error>)
        requires
            self.wf(),
            v@.len() == self.dim_spec(),
            raws_bounded(v@, INPUT_LIMIT as int),
        ensures
            match r {
                Ok(c) => self.query_code(v@) == Some(c@) && c@.len() == self.k(),
                Err(e) => self.query_code(v@) is None && (e == Error::HashOverflow || (
                self is Mips && e == Error::Failed)),
            },
    {
        match self {
            Hasher::Srp(h) => Ok(h.hash_vec_query(v)),
            Hasher::L2(h) => h.hash_vec_query(v),
            Hasher::Mips(h) => h.hash_vec_query(v),
            Hasher::MinHash(h) => Ok(h.hash_vec_query(v)),
        }
    }

    /// The insertion codeword of `v`; fails exactly when the codeword is
    /// absent.
    pub fn hash_vec_put(&self, v: &[Fx]) -> (r: Result<Vec<i64>, Error>)
        requires
            self.wf(),
            self.put_ready(),
            v@.len() == self.dim_spec(),
            raws_bounded(v@, INPUT_LIMIT as int),
        ensures
            match r {
                Ok(c) => self.put_code(v@) == Some(c@) && c@.len() == self.k(),
                Err(e) => self.put_code(v@) is None && e == Error::HashOverflow,
            },
    {
        match self {
            Hasher::Mips(h) => h.hash_vec_put(v),
            _ => self.hash_vec_query(v),
        }
    }
}


/// Whether every row of `m` has length `cols` with raw values within
/// the sampled-matrix bound.
fn check_matrix(m: &Vec<Vec<Fx>>, rows: usize, cols: usize) -> (r: bool)
    ensures
        r ==> m@.len() == rows && matrix_wf(m@, cols as int, GAUSS_LIMIT as int),
{
    if m.len() != rows {
        return false;
    }
    let mut i: usize = 0;
    while i < m.len()
        invariant
            i <= m@.len(),
            forall|x: int|
                0 <= x < i ==> (#[trigger] m@[x])@.len() == cols && raws_bounded(
                    m@[x]@,
                    GAUSS_LIMIT as int,
                ),
        decreases m@.len() - i,
    {
        let row = &m[i];
        if row.len() != cols {
            return false;
        }
        let mut j: usize = 0;
        while j < row.len()
            invariant
                j <= row@.len(),
                row@ == m@[i as int]@,
                forall|x: int|
                    0 <= x < j ==> -GAUSS_LIMIT <= (#[trigger] row@[x]).raw <= GAUSS_LIMIT,
            decreases row@.len() - j,
        {
            if row[j].raw < -GAUSS_LIMIT || row[j].raw > GAUSS_LIMIT {
                return false;
            }
            j += 1;
        }
        i += 1;
    }
    true
}

/// Whether an L2 hasher is well formed with the given codeword length
/// and dimension.
fn check_l2(h: &L2, k: usize, dim: usize) -> (r: bool)
    ensures
        r ==> h.wf() && h.k() == k && h.dim == dim,
{
    if h.dim != dim || (dim as u64) > 0x1_0000_0000u64 {
        return false;
    }
    if h.r.raw <= 0 || h.r.raw > 0x8000_0000_0000 {
        return false;
    }
    if h.b.len() != k {
        return false;
    }
    if !check_matrix(&h.a, k, dim) {
        return false;
    }
    let mut i: usize = 0;
    while i < h.b.len()
        invariant
            i <= h.b@.len(),
            h.r.raw > 0,
            forall|x: int| 0 <= x < i ==> 0 <= (#[trigger] h.b@[x]).raw < h.r.raw,
        decreases h.b@.len() - i,
    {
        if h.b[i].raw < 0 || h.b[i].raw >= h.r.raw {
            return false;
        }
        i += 1;
    }
    true
}

/// Whether a hasher is well formed with the given codeword length,
/// dimension and family tag.
fn check_hasher(h: &Hasher, k: usize, dim: usize, family: u8) -> (r: bool)
    ensures
        r ==> h.wf() && h.k() == k && h.dim_spec() == dim && crate::lsh::family_of(*h)
            == family as int && h.put_ready(),
{
    match h {
        Hasher::Srp(s) => {
            if family != 0 {
                return false;
            }
            if s.dim != dim || (dim as u64) > 0x1_0000_0000u64 {
                return false;
            }
            check_matrix(&s.hyperplanes, k, dim)
        },
        Hasher::L2(h2) => {
            if family != 1 {
                return false;
            }
            check_l2(h2, k, dim)
        },
        Hasher::Mips(m) => {
            if family != 2 {
                return false;
            }
            if m.dim != dim || m.m < 1 {
                return false;
            }
            if (dim as u128) + (m.m as u128) > 0xffff_ffffu128 {
                return false;
            }
            if m.u.raw <= 0 || m.u.raw >= 65536 || m.m_max.raw <= 0 {
                return false;
            }
            check_l2(&m.hasher, k, dim + m.m)
        },
        Hasher::MinHash(mh) => {
            if family != 3 {
                return false;
            }
            if mh.dim != dim || dim < 1 || (dim as u64) > 0x7fff_ffffu64 {
                return false;
            }
            if mh.pi.len() != k {
                return false;
            }
            let mut i: usize = 0;
            while i < mh.pi.len()
                invariant
                    i <= mh.pi@.len(),
                    mh.dim == dim,
                    1 <= dim <= 0x7fff_ffff,
                    forall|t: int|
                        0 <= t < i ==> (#[trigger] mh.pi@[t])@.len() == dim && (forall|j: int|
                            0 <= j < dim ==> 1 <= #[trigger] mh.pi@[t]@[j] <= dim) && (forall|
                            x: int,
                            y: int,
                        |
                            0 <= x < y < dim ==> mh.pi@[t]@[x] != mh.pi@[t]@[y]),
                decreases mh.pi@.len() - i,
            {
                let row = &mh.pi[i];
                if row.len() != dim {
                    return false;
                }
                let mut x: usize = 0;
                while x < row.len()
                    invariant
                        x <= row@.len(),
                        row@ == mh.pi@[i as int]@,
                        row@.len() == dim,
                        1 <= dim <= 0x7fff_ffff,
                        forall|a: int| 0 <= a < x ==> 1 <= #[trigger] row@[a] <= dim,
                        forall|a: int, b: int| 0 <= a < b < x ==> row@[a] != row@[b],
                    decreases row@.len() - x,
                {
                    if row[x] < 1 || row[x] > dim as i64 {
                        return false;
                    }
                    let mut y: usize = 0;
                    while y < x
                        invariant
                            y <= x,
                            x < row@.len(),
                            row@ == mh.pi@[i as int]@,
                            forall|b: int| 0 <= b < y ==> row@[b] != row@[x as int],
                        decreases x - y,
                    {
                        if row[y] == row[x] {
                            return false;
                        }
                        y += 1;
                    }
                    x += 1;
                }
                i += 1;
            }
            true
        },
    }
}

/// Whether a hasher set is well formed for an index of `l` tables with
/// codeword length `k` over `dim` dimensions, all of the given family.
pub fn check_hashers(hs: &Vec<Hasher>, l: usize, k: usize, dim: usize, family: u8) -> (r: bool)
    ensures
        r ==> hs@.len() == l && forall|i: int|
            0 <= i < hs@.len() ==> (#[trigger] hs@[i]).wf() && hs@[i].k() == k
                && hs@[i].dim_spec() == dim && crate::lsh::family_of(hs@[i]) == family as int
                && hs@[i].put_ready(),
{
    if hs.len() != l {
        return false;
    }
    let mut i: usize = 0;
    while i < hs.len()
        invariant
            i <= hs@.len(),
            forall|x: int|
                0 <= x < i ==> (#[trigger] hs@[x]).wf() && hs@[x].k() == k && hs@[x].dim_spec()
                    == dim && crate::lsh::family_of(hs@[x]) == family as int
                    && hs@[x].put_ready(),
        decreases hs@.len() - i,
    {
        if !check_hasher(&hs[i], k, dim, family) {
            return false;
        }
        i += 1;
    }
    true
}

} // verus!

