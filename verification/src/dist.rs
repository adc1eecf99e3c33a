//! Distance and similarity helpers on fixed-point vectors.

use vstd::prelude::*;
use crate::error::Error;
use crate::fx::{isqrt_u128, floor_div_i128, Fx};

verus! {

/// Largest raw magnitude a scalar may have on entry to the dot product:
/// with vectors of at most `2^32` entries the wide accumulator cannot
/// overflow.
pub const RAW_LIMIT: i64 = 0x8000_0000_0000;

/// All raw values of the sequence lie within `-m ..= m`.
pub open spec fn raws_bounded(v: Seq<Fx>, m: int) -> bool {
    forall|j: int| 0 <= j < v.len() ==> -m <= (#[trigger] v[j]).raw <= m
}

/// Sum of the products of the raw values of two sequences.  Since raws
/// carry a denominator of `65536`, this sum stands for the true dot
/// product scaled by `65536 * 65536`.
pub open spec fn dot_wide(a: Seq<Fx>, b: Seq<Fx>) -> int
    decreases a.len(),
{
    if a.len() == 0 || b.len() == 0 {
        0
    } else {
        dot_wide(a.drop_last(), b.drop_last()) + a.last().raw * b.last().raw
    }
}

/// An elementwise bound on two sequences bounds their wide dot product by
/// `m * m * len`.
pub proof fn lemma_dot_wide_bound(a: Seq<Fx>, b: Seq<Fx>, m: int)
    requires
        a.len() == b.len(),
        m >= 0,
        raws_bounded(a, m),
        raws_bounded(b, m),
    ensures
        -(m * m * a.len()) <= dot_wide(a, b) <= m * m * a.len(),
    decreases a.len(),
{
    if a.len() == 0 {
    } else {
        assert(raws_bounded(a.drop_last(), m));
        assert(raws_bounded(b.drop_last(), m));
        lemma_dot_wide_bound(a.drop_last(), b.drop_last(), m);
        assert(-(m * m) <= a.last().raw * b.last().raw <= m * m) by (nonlinear_arith)
            requires
                -m <= a.last().raw <= m,
                -m <= b.last().raw <= m,
                m >= 0,
        ;
        assert(m * m * (a.len() - 1) + m * m == m * m * a.len()) by (nonlinear_arith);
    }
}

/// Wide dot product of two vectors: the exact sum of raw products.
pub fn dot_fx(a: &[Fx], b: &[Fx]) -> (r: i128)
    requires
        a@.len() == b@.len(),
        a@.len() <= 0x1_0000_0000,
        raws_bounded(a@, 0x8000_0000_0000),
        raws_bounded(b@, 0x8000_0000_0000),
    ensures
        r == dot_wide(a@, b@),
        -0x4000_0000_0000_0000_0000_0000_0000_0000i128 <= r
            <= 0x4000_0000_0000_0000_0000_0000_0000_0000i128,
{
    let mut sum: i128 = 0;
    let mut i: usize = 0;
    while i < a.len()
        invariant
            i <= a@.len(),
            a@.len() == b@.len(),
            a@.len() <= 0x1_0000_0000,
            raws_bounded(a@, 0x8000_0000_0000),
            raws_bounded(b@, 0x8000_0000_0000),
            sum == dot_wide(a@.take(i as int), b@.take(i as int)),
            -0x4000_0000_0000_0000_0000_0000i128 * (i as int) <= sum
                <= 0x4000_0000_0000_0000_0000_0000i128 * (i as int),
        decreases a@.len() - i,
    {
        proof {
            assert(a@.take(i + 1).drop_last() =~= a@.take(i as int));
            assert(b@.take(i + 1).drop_last() =~= b@.take(i as int));
            assert(-0x4000_0000_0000_0000_0000_0000i128 <= (a@[i as int]).raw * (b@[
                i as int]).raw <= 0x4000_0000_0000_0000_0000_0000i128) by (nonlinear_arith)
                requires
                    -0x8000_0000_0000 <= (a@[i as int]).raw <= 0x8000_0000_0000,
                    -0x8000_0000_0000 <= (b@[i as int]).raw <= 0x8000_0000_0000,
            ;
        }
        let pa = a[i].raw as i128;
        let pb = b[i].raw as i128;
        sum = sum + pa * pb;
        i += 1;
    }
    proof {
        assert(a@.take(a@.len() as int) =~= a@);
        assert(b@.take(b@.len() as int) =~= b@);
        assert(0x4000_0000_0000_0000_0000_0000 * (i as int)
            <= 0x4000_0000_0000_0000_0000_0000_0000_0000) by (nonlinear_arith)
            requires
                0 <= i as int <= 0x1_0000_0000,
        ;
        assert(-0x4000_0000_0000_0000_0000_0000_0000_0000
            <= -0x4000_0000_0000_0000_0000_0000 * (i as int)) by (nonlinear_arith)
            requires
                0 <= i as int <= 0x1_0000_0000,
        ;
    }
    sum
}

/// Whether `r` is the floor square root of `s`; at most one `r` satisfies
/// this for a given `s` (see [`lemma_floor_sqrt_unique`]).
pub open spec fn is_floor_sqrt(s: int, r: int) -> bool {
    0 <= r && r * r <= s < (r + 1) * (r + 1)
}

/// The floor square root of an integer; zero for negative arguments.
pub open spec fn floor_sqrt(s: int) -> int
    decreases s,
{
    if s <= 0 {
        0
    } else {
        let p = floor_sqrt(s - 1);
        if (p + 1) * (p + 1) <= s {
            p + 1
        } else {
            p
        }
    }
}

/// `floor_sqrt` satisfies the floor square root property.
pub proof fn lemma_floor_sqrt_correct(s: int)
    requires
        s >= 0,
    ensures
        is_floor_sqrt(s, floor_sqrt(s)),
    decreases s,
{
    if s == 0 {
        assert(is_floor_sqrt(0, 0)) by (nonlinear_arith);
    } else {
        lemma_floor_sqrt_correct(s - 1);
        let p = floor_sqrt(s - 1);
        if (p + 1) * (p + 1) <= s {
            assert(is_floor_sqrt(s, p + 1)) by (nonlinear_arith)
                requires
                    p >= 0,
                    p * p <= s - 1 < (p + 1) * (p + 1),
                    (p + 1) * (p + 1) <= s,
            ;
        } else {
            assert(is_floor_sqrt(s, p)) by (nonlinear_arith)
                requires
                    p >= 0,
                    p * p <= s - 1 < (p + 1) * (p + 1),
                    (p + 1) * (p + 1) > s,
            ;
        }
    }
}

/// L2 norm of a vector, rounded toward zero: the result's raw value is
/// the floor square root of the wide self dot product.
pub fn l2_norm(x: &[Fx]) -> (r: Fx)
    requires
        x@.len() <= 0x1_0000_0000,
        raws_bounded(x@, 0x4000_0000_0000),
    ensures
        r.raw >= 0,
        is_floor_sqrt(dot_wide(x@, x@), r.raw as int),
        r.raw == floor_sqrt(dot_wide(x@, x@)),
{
    proof {
        lemma_self_dot_nonneg(x@);
        lemma_floor_sqrt_correct(dot_wide(x@, x@));
        lemma_dot_wide_bound(x@, x@, 0x4000_0000_0000);
        assert(0x4000_0000_0000 * 0x4000_0000_0000 * x@.len()
            <= 0x1000_0000_0000_0000_0000_0000_0000_0000) by (nonlinear_arith)
            requires
                x@.len() <= 0x1_0000_0000,
        ;
    }
    let s = dot_fx(x, x);
    let root = isqrt_u128(s as u128);
    proof {
        assert(root <= 0x4000_0000_0000_0000u128) by (nonlinear_arith)
            requires
                root * root <= s as u128,
                s as u128 <= 0x1000_0000_0000_0000_0000_0000_0000_0000u128,
        ;
        assert(is_floor_sqrt(s as int, root as int));
        lemma_floor_sqrt_unique(s as int, root as int, floor_sqrt(s as int));
    }
    Fx { raw: root as i64 }
}

/// A self dot product is nonnegative.
pub proof fn lemma_self_dot_nonneg(v: Seq<Fx>)
    ensures
        dot_wide(v, v) >= 0,
    decreases v.len(),
{
    if v.len() == 0 {
    } else {
        lemma_self_dot_nonneg(v.drop_last());
        assert(v.last().raw * v.last().raw >= 0) by (nonlinear_arith);
    }
}

/// Inner product of two vectors, rounded toward minus infinity.
/// Fails with [`Error::HashOverflow`] exactly when the result does not fit
/// a scalar.
pub fn inner_prod(a: &[Fx], b: &[Fx]) -> (r: Result<Fx, Error>)
    requires
        a@.len() == b@.len(),
        a@.len() <= 0x1_0000_0000,
        raws_bounded(a@, 0x8000_0000_0000),
        raws_bounded(b@, 0x8000_0000_0000),
    ensures
        match r {
            Ok(p) => p.raw == dot_wide(a@, b@) / 65536,
            Err(e) => e == Error::HashOverflow && !(i64::MIN <= dot_wide(a@, b@) / 65536
                <= i64::MAX),
        },
{
    let s = dot_fx(a, b);
    let q = floor_div_i128(s, 65536);
    if q < -0x8000_0000_0000_0000i128 || q > 0x7fff_ffff_ffff_ffffi128 {
        Err(Error::HashOverflow)
    } else {
        Ok(Fx { raw: q as i64 })
    }
}

/// Cosine similarity of two vectors: the inner product divided by the two
/// norms, each step rounding toward minus infinity.  Fails with
/// [`Error::Failed`] when either vector has zero norm, and with
/// [`Error::HashOverflow`] when an intermediate value does not fit a
/// scalar.
pub fn cosine_sim(a: &[Fx], b: &[Fx]) -> (r: Result<Fx, Error>)
    requires
        a@.len() == b@.len(),
        a@.len() <= 0x1_0000_0000,
        raws_bounded(a@, 0x4000_0000_0000),
        raws_bounded(b@, 0x4000_0000_0000),
    ensures
        match r {
            Ok(c) => exists|na: int, nb: int|
                {
                    &&& is_floor_sqrt(dot_wide(a@, a@), na)
                    &&& is_floor_sqrt(dot_wide(b@, b@), nb)
                    &&& na > 0
                    &&& nb > 0
                    &&& c.raw == crate::fx::fx_div_raw(
                        crate::fx::fx_div_raw(dot_wide(a@, b@) / 65536, na),
                        nb,
                    )
                },
            Err(e) => e == Error::Failed || e == Error::HashOverflow,
        },
{
    let na = l2_norm(a);
    let nb = l2_norm(b);
    if na.raw == 0 || nb.raw == 0 {
        return Err(Error::Failed);
    }
    let ip = match inner_prod(a, b) {
        Ok(p) => p,
        Err(e) => {
            return Err(e);
        },
    };
    let d1 = match crate::fx::fx_div_checked(ip, na) {
        Ok(p) => p,
        Err(e) => {
            return Err(e);
        },
    };
    let d2 = match crate::fx::fx_div_checked(d1, nb) {
        Ok(p) => p,
        Err(e) => {
            return Err(e);
        },
    };
    proof {
        let gna = na.raw as int;
        let gnb = nb.raw as int;
        assert(is_floor_sqrt(dot_wide(a@, a@), gna) && is_floor_sqrt(dot_wide(b@, b@), gnb)
            && gna > 0 && gnb > 0 && d2.raw == crate::fx::fx_div_raw(
            crate::fx::fx_div_raw(dot_wide(a@, b@) / 65536, gna),
            gnb,
        ));
    }
    Ok(d2)
}

/// The floor square root of an integer is unique.
pub proof fn lemma_floor_sqrt_unique(s: int, r1: int, r2: int)
    requires
        is_floor_sqrt(s, r1),
        is_floor_sqrt(s, r2),
    ensures
        r1 == r2,
{
    assert(r1 == r2) by (nonlinear_arith)
        requires
            r1 >= 0,
            r2 >= 0,
            r1 * r1 <= s < (r1 + 1) * (r1 + 1),
            r2 * r2 <= s < (r2 + 1) * (r2 + 1),
    ;
}


/// The elementwise difference of two points of equal length.
pub open spec fn diff_point(q: Seq<Fx>, w: Seq<Fx>) -> Seq<Fx> {
    Seq::new(q.len(), |j: int| Fx { raw: (q[j].raw - w[j].raw) as i64 })
}

/// Raw value of the L2 distance between two points: the floor square
/// root of the wide self dot product of their difference.
pub open spec fn l2_dist_raw(q: Seq<Fx>, w: Seq<Fx>) -> int {
    floor_sqrt(dot_wide(diff_point(q, w), diff_point(q, w)))
}

/// The distances of `q` to each point of `vs`.
pub open spec fn dists_of(q: Seq<Fx>, vs: Seq<Vec<Fx>>) -> Seq<Fx> {
    Seq::new(vs.len(), |i: int| Fx { raw: l2_dist_raw(q, vs[i]@) as i64 })
}

/// Rank the points of `vs` by their L2 distance to `q`, nearest first,
/// and keep the `top_k` best: the returned indices are the stable
/// argsort of the distances, cut to `top_k`, paired with the distances
/// themselves.
pub fn sort_by_distance(q: &[Fx], vs: &Vec<Vec<Fx>>, top_k: usize) -> (r: (Vec<usize>, Vec<Fx>))
    requires
        q@.len() <= 0x1_0000_0000,
        raws_bounded(q@, 0x2000_0000_0000),
        vs@.len() <= 0xffff_ffff,
        forall|i: int|
            0 <= i < vs@.len() ==> (#[trigger] vs@[i])@.len() == q@.len() && raws_bounded(
                vs@[i]@,
                0x2000_0000_0000,
            ),
    ensures
        ({
            let (idx, ds) = r;
            &&& idx@.len() == vstd::math::min(top_k as int, vs@.len() as int)
            &&& ds@.len() == idx@.len()
            &&& idx@ == crate::multi_probe::argsort_spec(dists_of(q@, vs@)).take(
                idx@.len() as int,
            )
            &&& forall|j: int|
                0 <= j < idx@.len() ==> (#[trigger] idx@[j]) < vs@.len()
            &&& forall|j: int|
                0 <= j < ds@.len() ==> (#[trigger] ds@[j]).raw == l2_dist_raw(
                    q@,
                    vs@[idx@[j] as int]@,
                )
            &&& forall|a: int, b: int|
                0 <= a < b < ds@.len() ==> ds@[a].raw <= ds@[b].raw
        }),
{
    let n = vs.len();
    let mut ds_all: Vec<Fx> = Vec::new();
    let mut i: usize = 0;
    while i < n
        invariant
            i <= n,
            n == vs@.len(),
            q@.len() <= 0x1_0000_0000,
            raws_bounded(q@, 0x2000_0000_0000),
            forall|t: int|
                0 <= t < vs@.len() ==> (#[trigger] vs@[t])@.len() == q@.len() && raws_bounded(
                    vs@[t]@,
                    0x2000_0000_0000,
                ),
            ds_all@.len() == i,
            forall|t: int|
                0 <= t < i ==> (#[trigger] ds_all@[t]).raw == l2_dist_raw(q@, vs@[t]@),
        decreases n - i,
    {
        let row = &vs[i];
        let mut diff: Vec<Fx> = Vec::new();
        let mut j: usize = 0;
        while j < q.len()
            invariant
                j <= q@.len(),
                row@ == vs@[i as int]@,
                i < vs@.len(),
                row@.len() == q@.len(),
                raws_bounded(q@, 0x2000_0000_0000),
                raws_bounded(row@, 0x2000_0000_0000),
                diff@.len() == j,
                forall|t: int|
                    0 <= t < j ==> #[trigger] diff@[t] == diff_point(q@, vs@[i as int]@)[t],
                raws_bounded(diff@, 0x4000_0000_0000),
            decreases q@.len() - j,
        {
            let d = crate::fx::fx_sub(q[j], row[j]);
            diff.push(d);
            j += 1;
        }
        proof {
            assert(diff@ =~= diff_point(q@, vs@[i as int]@));
        }
        let dist = l2_norm(diff.as_slice());
        proof {
            lemma_floor_sqrt_unique(
                dot_wide(diff@, diff@),
                dist.raw as int,
                floor_sqrt(dot_wide(diff@, diff@)),
            );
        }
        ds_all.push(dist);
        i += 1;
    }
    proof {
        assert(ds_all@ =~= dists_of(q@, vs@));
    }
    let z = crate::multi_probe::argsort(&ds_all);
    let m = if top_k < n {
        top_k
    } else {
        n
    };
    let mut idx: Vec<usize> = Vec::new();
    let mut ds: Vec<Fx> = Vec::new();
    let mut j: usize = 0;
    while j < m
        invariant
            j <= m,
            m == vstd::math::min(top_k as int, vs@.len() as int),
            n == vs@.len(),
            z@ == crate::multi_probe::argsort_spec(dists_of(q@, vs@)),
            z@.len() == n,
            ds_all@ == dists_of(q@, vs@),
            ds_all@.len() == n,
            forall|t: int| 0 <= t < z@.len() ==> (#[trigger] z@[t]) < n,
            forall|a: int, b: int|
                0 <= a < b < z@.len() ==> ds_all@[z@[a] as int].raw < ds_all@[
                    z@[b] as int].raw || (ds_all@[z@[a] as int].raw == ds_all@[
                    z@[b] as int].raw && z@[a] < z@[b]),
            idx@.len() == j,
            ds@.len() == j,
            idx@ == z@.take(j as int),
            forall|t: int|
                0 <= t < j ==> #[trigger] ds@[t] == ds_all@[z@[t] as int],
        decreases m - j,
    {
        let zi = z[j];
        idx.push(zi);
        ds.push(ds_all[zi]);
        proof {
            assert(idx@ =~= z@.take(j + 1));
        }
        j += 1;
    }
    proof {
        assert forall|a: int, b: int|
            0 <= a < b < ds@.len() implies ds@[a].raw <= ds@[b].raw by {
            assert(ds@[a] == ds_all@[z@[a] as int]);
            assert(ds@[b] == ds_all@[z@[b] as int]);
        }
        assert forall|t: int|
            0 <= t < ds@.len() implies (#[trigger] ds@[t]).raw == l2_dist_raw(
            q@,
            vs@[idx@[t] as int]@,
        ) by {
            assert(idx@[t] == z@[t]);
            assert(ds@[t] == ds_all@[z@[t] as int]);
        }
    }
    (idx, ds)
}

} // verus!
