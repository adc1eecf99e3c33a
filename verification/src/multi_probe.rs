//! Multi-probe strategies: step-wise probing and query-directed probing.
//!
//! Step-wise probing enumerates codeword perturbations by increasing
//! Hamming weight; query-directed probing visits perturbations in order
//! of their distance to the slot boundaries via a best-first search.

use vstd::prelude::*;
use crate::error::Error;
use crate::fx::Fx;

verus! {

/// All strictly increasing index sequences of length `k` drawn from
/// `lo .. n`, in lexicographic order.
pub open spec fn combs(lo: usize, n: usize, k: usize) -> Seq<Seq<usize>>
    decreases n - lo, k,
{
    if k == 0 {
        seq![Seq::empty()]
    } else if lo + k > n {
        Seq::empty()
    } else {
        combs((lo + 1) as usize, n, (k - 1) as usize).map_values(|s: Seq<usize>| seq![lo] + s)
            + combs((lo + 1) as usize, n, k)
    }
}

/// The first `limit` combinations of length `k` from `lo .. n`, in
/// lexicographic order.
pub fn combs_limited(lo: usize, n: usize, k: usize, limit: usize) -> (r: Vec<Vec<usize>>)
    requires
        lo <= n,
    ensures
        r@.len() == vstd::math::min(limit as int, combs(lo, n, k).len() as int),
        forall|i: int| 0 <= i < r@.len() ==> (#[trigger] r@[i])@ == combs(lo, n, k)[i],
    decreases n - lo, k,
{
    let ghost full = combs(lo, n, k);
    if k == 0 {
        let mut r: Vec<Vec<usize>> = Vec::new();
        if limit > 0 {
            let empty: Vec<usize> = Vec::new();
            r.push(empty);
        }
        proof {
            assert(full.len() == 1);
            if limit > 0 {
                assert(r@[0]@ =~= full[0]);
            }
        }
        r
    } else if n - lo < k {
        proof {
            assert(full.len() == 0);
        }
        Vec::new()
    } else {
        let ghost left_full = combs((lo + 1) as usize, n, (k - 1) as usize).map_values(
            |s: Seq<usize>| seq![lo] + s,
        );
        let ghost right_full = combs((lo + 1) as usize, n, k);
        let firsts = combs_limited(lo + 1, n, k - 1, limit);
        let mut r: Vec<Vec<usize>> = Vec::new();
        let mut i: usize = 0;
        while i < firsts.len()
            invariant
                i <= firsts@.len(),
                r@.len() == i,
                lo <= n,
                forall|j: int|
                    0 <= j < firsts@.len() ==> (#[trigger] firsts@[j])@ == combs(
                        (lo + 1) as usize,
                        n,
                        (k - 1) as usize,
                    )[j],
                forall|j: int|
                    0 <= j < i ==> (#[trigger] r@[j])@ == seq![lo] + combs(
                        (lo + 1) as usize,
                        n,
                        (k - 1) as usize,
                    )[j],
            decreases firsts@.len() - i,
        {
            let mut c: Vec<usize> = Vec::new();
            c.push(lo);
            let src = &firsts[i];
            let mut t: usize = 0;
            while t < src.len()
                invariant
                    t <= src@.len(),
                    c@ == seq![lo] + src@.take(t as int),
                decreases src@.len() - t,
            {
                c.push(src[t]);
                proof {
                    assert(c@ =~= seq![lo] + src@.take(t + 1));
                }
                t += 1;
            }
            proof {
                assert(src@.take(src@.len() as int) =~= src@);
            }
            r.push(c);
            i += 1;
        }
        proof {
            assert(full =~= left_full + right_full);
            assert(left_full.len() == combs((lo + 1) as usize, n, (k - 1) as usize).len());
            assert(forall|j: int|
                0 <= j < r@.len() ==> (#[trigger] r@[j])@ == left_full[j]);
        }
        if r.len() < limit {
            let rest = combs_limited(lo + 1, n, k, limit - r.len());
            let ghost done = r@.len() as int;
            let mut t: usize = 0;
            while t < rest.len()
                invariant
                    t <= rest@.len(),
                    r@.len() == done + t,
                    done == left_full.len(),
                    forall|j: int|
                        0 <= j < rest@.len() ==> (#[trigger] rest@[j])@ == right_full[j],
                    forall|j: int| 0 <= j < done ==> (#[trigger] r@[j])@ == left_full[j],
                    forall|j: int|
                        done <= j < done + t ==> (#[trigger] r@[j])@ == right_full[j - done],
                decreases rest@.len() - t,
            {
                let mut c: Vec<usize> = Vec::new();
                let src = &rest[t];
                let mut u: usize = 0;
                while u < src.len()
                    invariant
                        u <= src@.len(),
                        c@ == src@.take(u as int),
                    decreases src@.len() - u,
                {
                    c.push(src[u]);
                    proof {
                        assert(c@ =~= src@.take(u + 1));
                    }
                    u += 1;
                }
                proof {
                    assert(src@.take(src@.len() as int) =~= src@);
                }
                r.push(c);
                t += 1;
            }
            proof {
                assert(forall|j: int|
                    0 <= j < r@.len() ==> (#[trigger] r@[j])@ == full[j]);
            }
            r
        } else {
            r
        }
    }
}

/// The perturbation vector of a combination: combination element `i < n`
/// raises position `i` by one, element `i >= n` lowers position `i - n`
/// by one.
pub open spec fn perturb_vec(n: usize, comb: Seq<usize>) -> Seq<int>
    decreases comb.len(),
{
    if comb.len() == 0 {
        Seq::new(n as nat, |p: int| 0int)
    } else {
        let prev = perturb_vec(n, comb.drop_last());
        let i = comb.last() as int;
        if i < n {
            prev.update(i, prev[i] + 1)
        } else {
            prev.update(i - n, prev[i - n] - 1)
        }
    }
}

/// A perturbation vector has length `n`.
pub proof fn lemma_perturb_vec_len(n: usize, comb: Seq<usize>)
    requires
        forall|t: int| 0 <= t < comb.len() ==> #[trigger] comb[t] < 2 * n,
    ensures
        perturb_vec(n, comb).len() == n,
    decreases comb.len(),
{
    if comb.len() == 0 {
    } else {
        assert(forall|t: int|
            0 <= t < comb.drop_last().len() ==> #[trigger] comb.drop_last()[t] < 2 * n);
        lemma_perturb_vec_len(n, comb.drop_last());
    }
}

/// The perturbation vectors of all weight-`k` combinations, in
/// lexicographic order of the combinations.
pub open spec fn level_vecs(n: usize, m: usize, k: usize) -> Seq<Seq<int>> {
    Seq::new(
        combs(0, (n * m) as usize, k).len(),
        |i: int| perturb_vec(n, combs(0, (n * m) as usize, k)[i]),
    )
}

/// The perturbation vectors of Hamming weight up to `k`, ordered by
/// weight and, within one weight, lexicographically by combination.
pub open spec fn swp_levels(n: usize, m: usize, k: usize) -> Seq<Seq<int>>
    decreases k,
{
    if k == 0 {
        Seq::empty()
    } else {
        swp_levels(n, m, (k - 1) as usize) + level_vecs(n, m, k)
    }
}

/// The full step-wise probing order: all weights from one to `n`.
pub open spec fn swp_full(n: usize, m: usize) -> Seq<Seq<int>> {
    swp_levels(n, m, n)
}

/// Every combination from `lo .. n` of length `k` has length `k` and
/// elements within `lo .. n`.
pub proof fn lemma_combs_shape(lo: usize, n: usize, k: usize)
    ensures
        forall|i: int|
            0 <= i < combs(lo, n, k).len() ==> (#[trigger] combs(lo, n, k)[i]).len() == k
                && forall|t: int|
                0 <= t < k ==> lo <= #[trigger] combs(lo, n, k)[i][t] < n,
    decreases n - lo, k,
{
    if k == 0 {
    } else if lo + k > n {
    } else {
        lemma_combs_shape((lo + 1) as usize, n, (k - 1) as usize);
        lemma_combs_shape((lo + 1) as usize, n, k);
        let left = combs((lo + 1) as usize, n, (k - 1) as usize).map_values(
            |s: Seq<usize>| seq![lo] + s,
        );
        let right = combs((lo + 1) as usize, n, k);
        assert forall|i: int|
            0 <= i < combs(lo, n, k).len() implies (#[trigger] combs(lo, n, k)[i]).len() == k
            && forall|t: int|
            0 <= t < k ==> lo <= #[trigger] combs(lo, n, k)[i][t] < n by {
            if i < left.len() {
                let inner = combs((lo + 1) as usize, n, (k - 1) as usize)[i];
                assert(combs(lo, n, k)[i] == seq![lo] + inner);
                assert(inner.len() == k - 1);
                assert forall|t: int|
                    0 <= t < k implies lo <= #[trigger] combs(lo, n, k)[i][t] < n by {
                    if t == 0 {
                        assert(combs(lo, n, k)[i][0] == lo);
                    } else {
                        assert(combs(lo, n, k)[i][t] == inner[t - 1]);
                    }
                }
            } else {
                assert(combs(lo, n, k)[i] == right[i - left.len()]);
            }
        }
    }
}

/// Earlier weight prefixes are prefixes of later ones.
pub proof fn lemma_swp_levels_prefix(n: usize, m: usize, k1: usize, k2: usize)
    requires
        k1 <= k2,
    ensures
        swp_levels(n, m, k1).is_prefix_of(swp_levels(n, m, k2)),
    decreases k2 - k1,
{
    if k1 == k2 {
    } else {
        lemma_swp_levels_prefix(n, m, k1, (k2 - 1) as usize);
    }
}

/// The perturbation vectors visited by step-wise probing: the first
/// `budget` vectors of the full order, lowest weights first.  With
/// `two_shifts` the combinations range over `2 * hash_len` indices, so
/// each position may also be lowered.
pub fn step_wise_probing(hash_len: usize, budget: usize, two_shifts: bool) -> (r: Vec<Vec<i64>>)
    requires
        1 <= hash_len <= 0x7fff_ffff,
    ensures
        ({
            let m: usize = if two_shifts {
                2
            } else {
                1
            };
            let full = swp_full(hash_len, m);
            &&& r@.len() == vstd::math::min(budget as int, full.len() as int)
            &&& forall|i: int|
                0 <= i < r@.len() ==> (#[trigger] r@[i])@.len() == hash_len
            &&& forall|i: int, p: int|
                0 <= i < r@.len() && 0 <= p < hash_len ==> (#[trigger] r@[i]@[p]) as int
                    == full[i][p]
        }),
{
    let ghost multiply: usize = if two_shifts {
        2
    } else {
        1
    };
    let n2 = if two_shifts {
        hash_len * 2
    } else {
        hash_len
    };
    proof {
        assert(n2 == hash_len * multiply);
    }
    let mut r: Vec<Vec<i64>> = Vec::new();
    let mut k: usize = 1;
    while k <= hash_len && r.len() < budget
        invariant
            1 <= k <= hash_len + 1,
            1 <= hash_len <= 0x7fff_ffff,
            multiply == (if two_shifts {
                2usize
            } else {
                1usize
            }),
            n2 == hash_len * multiply,
            n2 == hash_len || n2 == hash_len + hash_len,
            n2 <= 0xffff_fffe,
            r@.len() == vstd::math::min(budget as int, swp_levels(hash_len, multiply, (k
                - 1) as usize).len() as int),
            forall|i: int|
                0 <= i < r@.len() ==> (#[trigger] r@[i])@.len() == hash_len,
            forall|i: int, p: int|
                0 <= i < r@.len() && 0 <= p < hash_len ==> (#[trigger] r@[i]@[p]) as int
                    == swp_levels(hash_len, multiply, (k - 1) as usize)[i][p],
        decreases hash_len + 1 - k,
    {
        let ghost prev_levels = swp_levels(hash_len, multiply, (k - 1) as usize);
        let ghost this_level = level_vecs(hash_len, multiply, k);
        proof {
            lemma_combs_shape(0, n2, k);
        }
        let want = budget - r.len();
        let combos = combs_limited(0, n2, k, want);
        let mut t: usize = 0;
        while t < combos.len()
            invariant
                t <= combos@.len(),
                1 <= hash_len <= 0x7fff_ffff,
                n2 == hash_len || n2 == hash_len + hash_len,
                n2 == hash_len * multiply,
                combos@.len() <= want,
                combos@.len() <= combs(0, n2, k).len(),
                this_level == level_vecs(hash_len, multiply, k),
                this_level.len() == combs(0, n2, k).len(),
                want + r@.len() == budget + t,
                forall|j: int|
                    0 <= j < combos@.len() ==> (#[trigger] combos@[j])@ == combs(0, n2, k)[j]
                        && combs(0, n2, k)[j].len() == k && (forall|u: int|
                        0 <= u < k ==> 0 <= #[trigger] combs(0, n2, k)[j][u] < n2),
                r@.len() == prev_levels.len() + t,
                forall|i: int|
                    0 <= i < r@.len() ==> (#[trigger] r@[i])@.len() == hash_len,
                forall|i: int, p: int|
                    0 <= i < prev_levels.len() && 0 <= p < hash_len ==> ((
                    #[trigger] r@[i]@[p]) as int) == prev_levels[i][p],
                forall|i: int, p: int|
                    prev_levels.len() <= i < r@.len() && 0 <= p < hash_len ==> (
                    #[trigger] r@[i]@[p]) as int == this_level[i - prev_levels.len()][p],
            decreases combos@.len() - t,
        {
            let combo = &combos[t];
            let mut v: Vec<i64> = Vec::new();
            let mut p: usize = 0;
            while p < hash_len
                invariant
                    p <= hash_len,
                    v@.len() == p,
                    forall|x: int| 0 <= x < p ==> #[trigger] v@[x] == 0,
                decreases hash_len - p,
            {
                v.push(0);
                p += 1;
            }
            proof {
                assert(forall|x: int|
                    0 <= x < hash_len ==> (#[trigger] perturb_vec(
                        hash_len,
                        combo@.take(0),
                    )[x]) == 0);
            }
            let mut u: usize = 0;
            while u < combo.len()
                invariant
                    u <= combo@.len(),
                    combo@ == combs(0, n2, k)[t as int],
                    combo@.len() == k,
                    1 <= hash_len <= 0x7fff_ffff,
                    n2 == hash_len || n2 == hash_len + hash_len,
                    n2 == hash_len * multiply,
                    forall|x: int| 0 <= x < combo@.len() ==> 0 <= #[trigger] combo@[x] < n2,
                    v@.len() == hash_len,
                    forall|x: int|
                        0 <= x < hash_len ==> (#[trigger] v@[x]) as int == perturb_vec(
                            hash_len,
                            combo@.take(u as int),
                        )[x],
                    forall|x: int|
                        0 <= x < hash_len ==> -(u as int) <= (#[trigger] v@[x]) as int <= u
                            as int,
                    k <= n2,
                    u <= n2,
                decreases combo@.len() - u,
            {
                let idx = combo[u];
                proof {
                    assert(combo@.take(u + 1).drop_last() =~= combo@.take(u as int));
                    assert(combo@.take(u + 1).last() == combo@[u as int]);
                    assert(forall|x: int|
                        0 <= x < combo@.len() ==> #[trigger] combo@[x] < 2 * hash_len);
                    assert(forall|x: int|
                        0 <= x < u + 1 ==> #[trigger] combo@.take(u + 1)[x] < 2 * hash_len);
                    assert(forall|x: int|
                        0 <= x < u ==> #[trigger] combo@.take(u as int)[x] < 2 * hash_len);
                    lemma_perturb_vec_len(hash_len, combo@.take(u as int));
                    lemma_perturb_vec_len(hash_len, combo@.take(u + 1));
                }
                proof {
                    assert(0 <= combo@[u as int] < n2);
                    if idx < hash_len {
                        assert(-(u as int) <= v@[idx as int] <= u as int);
                    } else {
                        assert(idx - hash_len < hash_len);
                        assert(-(u as int) <= v@[idx - hash_len] <= u as int);
                    }
                    assert(u < combo@.len());
                    assert(combo@.len() <= n2);
                }
                if idx < hash_len {
                    let c = v[idx];
                    v.set(idx, c + 1);
                } else {
                    let c = v[idx - hash_len];
                    v.set(idx - hash_len, c - 1);
                }
                u += 1;
            }
            proof {
                assert(combo@.take(combo@.len() as int) =~= combo@);
                assert(forall|x: int|
                    0 <= x < combo@.len() ==> #[trigger] combo@[x] < 2 * hash_len);
                lemma_perturb_vec_len(hash_len, combo@);
                assert((hash_len * multiply) as usize == n2);
                assert(combs(0, (hash_len * multiply) as usize, k) == combs(0, n2, k));
                assert(this_level[t as int] == perturb_vec(
                    hash_len,
                    combs(0, (hash_len * multiply) as usize, k)[t as int],
                ));
                assert(this_level[t as int] == perturb_vec(hash_len, combs(0, n2, k)[t as int]));
            }
            r.push(v);
            t += 1;
        }
        proof {
            let now = swp_levels(hash_len, multiply, k);
            assert(now == prev_levels + this_level);
            assert(combos@.len() == vstd::math::min(want as int, this_level.len() as int));
            assert forall|i: int, p: int|
                0 <= i < r@.len() && 0 <= p < hash_len implies (#[trigger] r@[i]@[p]) as int
                == now[i][p] by {
                if i < prev_levels.len() {
                    assert(now[i] == prev_levels[i]);
                } else {
                    assert(now[i] == this_level[i - prev_levels.len()]);
                }
            }
            assert(r@.len() == vstd::math::min(budget as int, now.len() as int));
        }
        k += 1;
    }
    proof {
        if k <= hash_len {
            assert(r@.len() == budget);
            lemma_swp_levels_prefix(hash_len, multiply, (k - 1) as usize, hash_len);
            let part = swp_levels(hash_len, multiply, (k - 1) as usize);
            let full = swp_full(hash_len, multiply);
            assert(part.len() >= budget);
            assert forall|i: int, p: int|
                0 <= i < r@.len() && 0 <= p < hash_len implies (#[trigger] r@[i]@[p]) as int
                == full[i][p] by {
                assert(part[i] == full[i]);
            }
        }
    }
    r
}

/// The score of a selection: the sum of the raw distances picked through
/// the sorted index list `z`.
pub open spec fn score_of(z: Seq<usize>, d: Seq<Fx>, sel: Seq<usize>) -> int
    decreases sel.len(),
{
    if sel.len() == 0 {
        0
    } else {
        score_of(z, d, sel.drop_last()) + d[z[sel.last() as int] as int].raw
    }
}

/// The codeword generated by a selection: position `z[j] - switchpoint`
/// is raised by one for `z[j] >= switchpoint`, position `z[j]` is lowered
/// by one otherwise.
pub open spec fn gen_spec(hash: Seq<i64>, z: Seq<usize>, switch: int, sel: Seq<usize>) -> Seq<
    int,
>
    decreases sel.len(),
{
    if sel.len() == 0 {
        Seq::new(hash.len(), |i: int| hash[i] as int)
    } else {
        let prev = gen_spec(hash, z, switch, sel.drop_last());
        let zj = z[sel.last() as int] as int;
        if zj >= switch {
            prev.update(zj - switch, prev[zj - switch] + 1)
        } else {
            prev.update(zj, prev[zj] - 1)
        }
    }
}

/// A generated codeword has the length of the original codeword.
pub proof fn lemma_gen_spec_len(hash: Seq<i64>, z: Seq<usize>, switch: int, sel: Seq<usize>)
    requires
        forall|t: int|
            0 <= t < sel.len() ==> (#[trigger] sel[t]) < z.len(),
        forall|j: int|
            0 <= j < z.len() ==> ((#[trigger] z[j]) >= switch ==> z[j] - switch < hash.len())
                && (z[j] < switch ==> z[j] < hash.len()),
        switch >= 0,
    ensures
        gen_spec(hash, z, switch, sel).len() == hash.len(),
    decreases sel.len(),
{
    if sel.len() == 0 {
    } else {
        assert(forall|t: int|
            0 <= t < sel.drop_last().len() ==> (#[trigger] sel.drop_last()[t]) < z.len());
        lemma_gen_spec_len(hash, z, switch, sel.drop_last());
    }
}

/// In a strictly increasing sequence, the element at `i` is at least `i`.
pub proof fn lemma_increasing_at_least(s: Seq<usize>, i: int)
    requires
        0 <= i < s.len(),
        forall|x: int, y: int| 0 <= x < y < s.len() ==> s[x] < s[y],
    ensures
        s[i] >= i,
    decreases i,
{
    if i > 0 {
        lemma_increasing_at_least(s, i - 1);
        assert(s[i - 1] < s[i]);
    }
}

/// A strictly increasing sequence of values below `n` has at most `n`
/// elements.
pub proof fn lemma_increasing_len(s: Seq<usize>, n: int)
    requires
        forall|x: int, y: int| 0 <= x < y < s.len() ==> s[x] < s[y],
        forall|t: int| 0 <= t < s.len() ==> (#[trigger] s[t]) < n,
        n >= 0,
    ensures
        s.len() <= n,
{
    if s.len() > 0 {
        lemma_increasing_at_least(s, s.len() - 1);
    }
}

/// One state of the best-first search over perturbation sets.
#[derive(Debug)]
pub struct PerturbState {
    /// Indices of the distance array, sorted by ascending distance.
    pub z: Vec<usize>,
    /// Distances of the query to each slot boundary.
    pub distances: Vec<Fx>,
    /// The selected positions of `z`, strictly increasing.
    pub selection: Vec<usize>,
    /// Positions of `z` below this index perturb by minus one, the rest
    /// by plus one.
    pub switchpoint: usize,
    /// The unperturbed codeword.
    pub original_hash: Vec<i64>,
}

impl PerturbState {
    /// The state is well formed.
    pub open spec fn wf(self) -> bool {
        &&& self.z@.len() == self.distances@.len()
        &&& 1 <= self.z@.len() <= 0xffff_ffff
        &&& forall|j: int| 0 <= j < self.z@.len() ==> (#[trigger] self.z@[j]) < self.z@.len()
        &&& forall|j: int|
            0 <= j < self.z@.len() ==> ((#[trigger] self.z@[j]) >= self.switchpoint
                ==> self.z@[j] - self.switchpoint < self.original_hash@.len()) && (self.z@[j]
                < self.switchpoint ==> self.z@[j] < self.original_hash@.len())
        &&& 1 <= self.selection@.len()
        &&& forall|t: int|
            0 <= t < self.selection@.len() ==> (#[trigger] self.selection@[t]) < self.z@.len()
        &&& forall|x: int, y: int|
            0 <= x < y < self.selection@.len() ==> self.selection@[x] < self.selection@[y]
        &&& forall|j: int|
            0 <= j < self.original_hash@.len() ==> -0x4000_0000_0000_0000
                <= #[trigger] self.original_hash@[j] <= 0x4000_0000_0000_0000
    }

    /// The initial state: the single cheapest perturbation.
    pub fn new(z: Vec<usize>, distances: Vec<Fx>, switchpoint: usize, hash: Vec<i64>) -> (r:
        PerturbState)
        requires
            z@.len() == distances@.len(),
            1 <= z@.len() <= 0xffff_ffff,
            forall|j: int| 0 <= j < z@.len() ==> (#[trigger] z@[j]) < z@.len(),
            forall|j: int|
                0 <= j < z@.len() ==> ((#[trigger] z@[j]) >= switchpoint ==> z@[j] - switchpoint
                    < hash@.len()) && (z@[j] < switchpoint ==> z@[j] < hash@.len()),
            forall|j: int|
                0 <= j < hash@.len() ==> -0x4000_0000_0000_0000 <= #[trigger] hash@[j]
                    <= 0x4000_0000_0000_0000,
        ensures
            r.wf(),
            r.z@ == z@,
            r.distances@ == distances@,
            r.switchpoint == switchpoint,
            r.original_hash@ == hash@,
            r.selection@ == seq![0usize],
    {
        let mut selection: Vec<usize> = Vec::new();
        selection.push(0);
        proof {
            assert(selection@ =~= seq![0usize]);
        }
        PerturbState { z, distances, selection, switchpoint, original_hash: hash }
    }

    /// The state's score: the sum of the selected raw distances.
    pub fn score(&self) -> (r: i128)
        requires
            self.wf(),
        ensures
            r == score_of(self.z@, self.distances@, self.selection@),
    {
        let mut sum: i128 = 0;
        let mut i: usize = 0;
        while i < self.selection.len()
            invariant
                i <= self.selection@.len(),
                self.wf(),
                sum == score_of(self.z@, self.distances@, self.selection@.take(i as int)),
                -0x8000_0000_0000_0000i128 * (i as int) <= sum <= 0x8000_0000_0000_0000i128 * (
                i as int),
            decreases self.selection@.len() - i,
        {
            proof {
                assert(self.selection@.take(i + 1).drop_last() =~= self.selection@.take(
                    i as int,
                ));
                assert(self.selection@.take(i + 1).last() == self.selection@[i as int]);
                lemma_increasing_len(self.selection@, self.z@.len() as int);
            }
            let pos = self.selection[i];
            let zj = self.z[pos];
            sum = sum + (self.distances[zj].raw as i128);
            i += 1;
        }
        proof {
            assert(self.selection@.take(self.selection@.len() as int) =~= self.selection@);
        }
        sum
    }

    /// An identical state.
    pub fn duplicate(&self) -> (r: PerturbState)
        ensures
            r.z@ == self.z@,
            r.distances@ == self.distances@,
            r.selection@ == self.selection@,
            r.switchpoint == self.switchpoint,
            r.original_hash@ == self.original_hash@,
    {
        let mut z: Vec<usize> = Vec::new();
        let mut i: usize = 0;
        while i < self.z.len()
            invariant
                i <= self.z@.len(),
                z@ == self.z@.take(i as int),
            decreases self.z@.len() - i,
        {
            z.push(self.z[i]);
            proof {
                assert(z@ =~= self.z@.take(i + 1));
            }
            i += 1;
        }
        let distances = crate::mem_table::copy_point(self.distances.as_slice());
        let mut selection: Vec<usize> = Vec::new();
        let mut i: usize = 0;
        while i < self.selection.len()
            invariant
                i <= self.selection@.len(),
                selection@ == self.selection@.take(i as int),
            decreases self.selection@.len() - i,
        {
            selection.push(self.selection[i]);
            proof {
                assert(selection@ =~= self.selection@.take(i + 1));
            }
            i += 1;
        }
        let mut original_hash: Vec<i64> = Vec::new();
        let mut i: usize = 0;
        while i < self.original_hash.len()
            invariant
                i <= self.original_hash@.len(),
                original_hash@ == self.original_hash@.take(i as int),
            decreases self.original_hash@.len() - i,
        {
            original_hash.push(self.original_hash[i]);
            proof {
                assert(original_hash@ =~= self.original_hash@.take(i + 1));
            }
            i += 1;
        }
        proof {
            assert(self.z@.take(self.z@.len() as int) =~= self.z@);
            assert(z@ =~= self.z@);
            assert(selection@ =~= self.selection@);
            assert(self.selection@.take(self.selection@.len() as int) =~= self.selection@);
            assert(original_hash@ =~= self.original_hash@);
            assert(self.original_hash@.take(self.original_hash@.len() as int)
                =~= self.original_hash@);
        }
        PerturbState {
            z,
            distances,
            selection,
            switchpoint: self.switchpoint,
            original_hash,
        }
    }

    /// Replace the last selected position by its successor; fails when
    /// the last position is already the end of `z`.
    pub fn shift(&mut self) -> (r: Result<(), Error>)
        requires
            old(self).wf(),
        ensures
            final(self).z@ == old(self).z@,
            final(self).distances@ == old(self).distances@,
            final(self).switchpoint == old(self).switchpoint,
            final(self).original_hash@ == old(self).original_hash@,
            match r {
                Ok(()) => old(self).selection@.last() + 1 < old(self).z@.len() && final(self).selection@ == old(self).selection@.drop_last().push(
                    (old(self).selection@.last() + 1) as usize,
                ) && final(self).wf(),
                Err(e) => e == Error::Failed && old(self).selection@.last() + 1 == old(self).z@.len(),
            },
    {
        let last = self.selection[self.selection.len() - 1];
        if last + 1 == self.z.len() {
            return Err(Error::Failed);
        }
        let n = self.selection.len();
        self.selection.set(n - 1, last + 1);
        proof {
            assert(self.selection@ =~= old(self).selection@.drop_last().push(
                (old(self).selection@.last() + 1) as usize,
            ));
        }
        Ok(())
    }

    /// Append the successor of the last selected position; fails when
    /// the last position is already the end of `z`.
    pub fn expand(&mut self) -> (r: Result<(), Error>)
        requires
            old(self).wf(),
        ensures
            final(self).z@ == old(self).z@,
            final(self).distances@ == old(self).distances@,
            final(self).switchpoint == old(self).switchpoint,
            final(self).original_hash@ == old(self).original_hash@,
            match r {
                Ok(()) => old(self).selection@.last() + 1 < old(self).z@.len() && final(self).selection@ == old(self).selection@.push(
                    (old(self).selection@.last() + 1) as usize,
                ) && final(self).wf(),
                Err(e) => e == Error::Failed && old(self).selection@.last() + 1 == old(self).z@.len() && final(self).selection@ == old(self).selection@,
            },
    {
        let last = self.selection[self.selection.len() - 1];
        if last + 1 == self.z.len() {
            return Err(Error::Failed);
        }
        self.selection.push(last + 1);
        Ok(())
    }

    /// The probing codeword of this state: the original codeword with
    /// every selected perturbation applied.
    pub fn gen_hash(&self) -> (r: Vec<i64>)
        requires
            self.wf(),
        ensures
            r@.len() == self.original_hash@.len(),
            forall|p: int|
                0 <= p < r@.len() ==> ((#[trigger] r@[p]) as int) == gen_spec(
                    self.original_hash@,
                    self.z@,
                    self.switchpoint as int,
                    self.selection@,
                )[p],
    {
        let mut out = crate::mem_table::copy_code(self.original_hash.as_slice());
        let mut u: usize = 0;
        proof {
            lemma_gen_spec_len(
                self.original_hash@,
                self.z@,
                self.switchpoint as int,
                self.selection@.take(0),
            );
        }
        while u < self.selection.len()
            invariant
                u <= self.selection@.len(),
                self.wf(),
                out@.len() == self.original_hash@.len(),
                forall|p: int|
                    0 <= p < out@.len() ==> ((#[trigger] out@[p]) as int) == gen_spec(
                        self.original_hash@,
                        self.z@,
                        self.switchpoint as int,
                        self.selection@.take(u as int),
                    )[p],
                forall|p: int|
                    0 <= p < out@.len() ==> -0x4000_0000_0000_0000 - (u as int)
                        <= #[trigger] out@[p] <= 0x4000_0000_0000_0000 + (u as int),
            decreases self.selection@.len() - u,
        {
            proof {
                assert(self.selection@.take(u + 1).drop_last() =~= self.selection@.take(
                    u as int,
                ));
                assert(self.selection@.take(u + 1).last() == self.selection@[u as int]);
                assert(forall|t: int|
                    0 <= t < self.selection@.take(u as int).len()
                        ==> (#[trigger] self.selection@.take(u as int)[t]) < self.z@.len());
                lemma_gen_spec_len(
                    self.original_hash@,
                    self.z@,
                    self.switchpoint as int,
                    self.selection@.take(u as int),
                );
                lemma_increasing_len(self.selection@, self.z@.len() as int);
            }
            let pos = self.selection[u];
            let zj = self.z[pos];
            if zj >= self.switchpoint {
                let idx = zj - self.switchpoint;
                let c = out[idx];
                out.set(idx, c + 1);
            } else {
                let c = out[zj];
                out.set(zj, c - 1);
            }
            u += 1;
        }
        proof {
            assert(self.selection@.take(self.selection@.len() as int) =~= self.selection@);
        }
        out
    }
}

/// A stable sort of the indices of `d` by ascending raw value: equal
/// values keep their index order.
pub fn argsort(d: &Vec<Fx>) -> (r: Vec<usize>)
    requires
        d@.len() <= 0xffff_ffff,
    ensures
        r@ == argsort_spec(d@),
        r@.len() == d@.len(),
        forall|j: int| 0 <= j < r@.len() ==> (#[trigger] r@[j]) < d@.len(),
        forall|x: int, y: int| 0 <= x < y < r@.len() ==> r@[x] != r@[y],
        forall|x: int, y: int|
            0 <= x < y < r@.len() ==> d@[r@[x] as int].raw < d@[r@[y] as int].raw || (d@[
                r@[x] as int].raw == d@[r@[y] as int].raw && r@[x] < r@[y]),
{
    let mut out: Vec<usize> = Vec::new();
    let mut idx: usize = 0;
    while idx < d.len()
        invariant
            idx <= d@.len(),
            d@.len() <= 0xffff_ffff,
            out@ == argsort_rec(d@, idx as nat),
            out@.len() == idx,
            forall|j: int| 0 <= j < out@.len() ==> (#[trigger] out@[j]) < idx,
            forall|x: int, y: int| 0 <= x < y < out@.len() ==> out@[x] != out@[y],
            forall|x: int, y: int|
                0 <= x < y < out@.len() ==> d@[out@[x] as int].raw < d@[out@[y] as int].raw || (
                d@[out@[x] as int].raw == d@[out@[y] as int].raw && out@[x] < out@[y]),
        decreases d@.len() - idx,
    {
        let mut p: usize = 0;
        while p < out.len() && d[out[p]].raw <= d[idx].raw
            invariant
                p <= out@.len(),
                idx < d@.len(),
                forall|j: int| 0 <= j < out@.len() ==> (#[trigger] out@[j]) < idx,
                forall|j: int|
                    0 <= j < p ==> d@[(#[trigger] out@[j]) as int].raw <= d@[idx as int].raw,
            decreases out@.len() - p,
        {
            p += 1;
        }
        let ghost old_out = out@;
        proof {
            lemma_ins_pos_at(d@, out@, idx, p as int);
        }
        out.insert(p, idx);
        proof {
            assert(forall|j: int| 0 <= j < p ==> out@[j] == old_out[j]);
            assert(out@[p as int] == idx);
            assert(forall|j: int|
                p < j < out@.len() ==> out@[j] == old_out[j - 1]);
            assert(out@ == argsort_rec(d@, (idx + 1) as nat));
        }
        idx += 1;
    }
    out
}

/// The position at which insertion keeps `out` stably sorted: the number
/// of leading entries whose distance does not exceed `idx`'s.
pub open spec fn ins_pos(d: Seq<Fx>, out: Seq<usize>, idx: usize) -> int
    decreases out.len(),
{
    if out.len() == 0 {
        0
    } else if d[out.first() as int].raw <= d[idx as int].raw {
        1 + ins_pos(d, out.drop_first(), idx)
    } else {
        0
    }
}

/// The stable argsort of `d`, built by inserting each index in turn.
pub open spec fn argsort_rec(d: Seq<Fx>, i: nat) -> Seq<usize>
    decreases i,
{
    if i == 0 {
        Seq::empty()
    } else {
        let prev = argsort_rec(d, (i - 1) as nat);
        prev.insert(ins_pos(d, prev, (i - 1) as usize), (i - 1) as usize)
    }
}

/// The stable argsort of `d`.
pub open spec fn argsort_spec(d: Seq<Fx>) -> Seq<usize> {
    argsort_rec(d, d.len())
}

/// If the first `p` entries sort at or below `idx` and entry `p` (when
/// present) sorts above, then `p` is the insertion position.
proof fn lemma_ins_pos_at(d: Seq<Fx>, out: Seq<usize>, idx: usize, p: int)
    requires
        0 <= p <= out.len(),
        forall|j: int| 0 <= j < p ==> d[(#[trigger] out[j]) as int].raw <= d[idx as int].raw,
        p < out.len() ==> d[out[p] as int].raw > d[idx as int].raw,
    ensures
        ins_pos(d, out, idx) == p,
    decreases p,
{
    if out.len() == 0 {
    } else if p == 0 {
    } else {
        assert(d[out.first() as int].raw <= d[idx as int].raw);
        assert(forall|j: int|
            0 <= j < p - 1 ==> d[(#[trigger] out.drop_first()[j]) as int].raw <= d[
                idx as int].raw);
        lemma_ins_pos_at(d, out.drop_first(), idx, p - 1);
    }
}

/// The first index of a minimal-score selection among the first `n`
/// entries of the heap.
pub open spec fn min_pref(z: Seq<usize>, d: Seq<Fx>, heap: Seq<Seq<usize>>, n: int) -> int
    decreases n,
{
    if n <= 1 {
        0
    } else {
        let p = min_pref(z, d, heap, n - 1);
        if score_of(z, d, heap[n - 1]) < score_of(z, d, heap[p]) {
            n - 1
        } else {
            p
        }
    }
}

/// The minimum over a prefix lies within that prefix.
pub proof fn lemma_min_pref_range(z: Seq<usize>, d: Seq<Fx>, heap: Seq<Seq<usize>>, n: int)
    requires
        n >= 1,
    ensures
        0 <= min_pref(z, d, heap, n) < n,
    decreases n,
{
    if n <= 1 {
    } else {
        lemma_min_pref_range(z, d, heap, n - 1);
    }
}

/// The selection with its last position replaced by the successor.
pub open spec fn shift_sel(sel: Seq<usize>) -> Seq<usize> {
    sel.drop_last().push((sel.last() + 1) as usize)
}

/// The selection with the successor of its last position appended.
pub open spec fn expand_sel(sel: Seq<usize>) -> Seq<usize> {
    sel.push((sel.last() + 1) as usize)
}

/// The codewords visited by the best-first search: `budget` rounds of
/// popping the first minimal-score selection, pushing its shift and
/// expand successors when they stay in range, and emitting the popped
/// selection's codeword.  Absent when the heap runs dry early.
pub open spec fn qdp_iter(
    z: Seq<usize>,
    d: Seq<Fx>,
    switch: int,
    hash: Seq<i64>,
    heap: Seq<Seq<usize>>,
    budget: nat,
) -> Option<Seq<Seq<int>>>
    decreases budget,
{
    if budget == 0 {
        Some(Seq::empty())
    } else if heap.len() == 0 {
        None
    } else {
        let m = min_pref(z, d, heap, heap.len() as int);
        let sel = heap[m];
        let heap1 = heap.remove(m);
        let heap2 = if sel.last() + 1 < z.len() {
            heap1.push(shift_sel(sel)).push(expand_sel(sel))
        } else {
            heap1
        };
        match qdp_iter(z, d, switch, hash, heap2, (budget - 1) as nat) {
            Some(rest) => Some(seq![gen_spec(hash, z, switch, sel)] + rest),
            None => None,
        }
    }
}

/// Raising the budget never removes a visited codeword: the shorter run
/// is a prefix of the longer one.
pub proof fn lemma_qdp_prefix(
    z: Seq<usize>,
    d: Seq<Fx>,
    switch: int,
    hash: Seq<i64>,
    heap: Seq<Seq<usize>>,
    b1: nat,
    b2: nat,
)
    requires
        b1 <= b2,
        qdp_iter(z, d, switch, hash, heap, b2) is Some,
    ensures
        qdp_iter(z, d, switch, hash, heap, b1) is Some,
        qdp_iter(z, d, switch, hash, heap, b1).unwrap().is_prefix_of(
            qdp_iter(z, d, switch, hash, heap, b2).unwrap(),
        ),
    decreases b1,
{
    if b1 == 0 {
        assert(qdp_iter(z, d, switch, hash, heap, b1) == Some(Seq::<Seq<int>>::empty()));
    } else {
        let m = min_pref(z, d, heap, heap.len() as int);
        let sel = heap[m];
        let heap1 = heap.remove(m);
        let heap2 = if sel.last() + 1 < z.len() {
            heap1.push(shift_sel(sel)).push(expand_sel(sel))
        } else {
            heap1
        };
        lemma_qdp_prefix(z, d, switch, hash, heap2, (b1 - 1) as nat, (b2 - 1) as nat);
        let r1 = qdp_iter(z, d, switch, hash, heap2, (b1 - 1) as nat).unwrap();
        let r2 = qdp_iter(z, d, switch, hash, heap2, (b2 - 1) as nat).unwrap();
        assert(qdp_iter(z, d, switch, hash, heap, b1).unwrap() == seq![gen_spec(
            hash,
            z,
            switch,
            sel,
        )] + r1);
        assert(qdp_iter(z, d, switch, hash, heap, b2).unwrap() == seq![gen_spec(
            hash,
            z,
            switch,
            sel,
        )] + r2);
        assert(forall|i: int|
            0 <= i < r1.len() ==> (seq![gen_spec(hash, z, switch, sel)] + r1)[i + 1] == r1[i]
                && (seq![gen_spec(hash, z, switch, sel)] + r2)[i + 1] == #[trigger] r2[i]);
        assert((seq![gen_spec(hash, z, switch, sel)] + r1).is_prefix_of(
            seq![gen_spec(hash, z, switch, sel)] + r2,
        )) by {
            let s1 = seq![gen_spec(hash, z, switch, sel)] + r1;
            let s2 = seq![gen_spec(hash, z, switch, sel)] + r2;
            assert forall|i: int| 0 <= i < s1.len() implies s1[i] == s2[i] by {
                if i == 0 {
                } else {
                    assert(r1[i - 1] == r2[i - 1]);
                }
            }
            assert(s1 =~= s2.take(s1.len() as int));
        }
    }
}

/// The selections of a heap of states.
pub open spec fn sels_of(states: Seq<PerturbState>) -> Seq<Seq<usize>> {
    Seq::new(states.len(), |i: int| states[i].selection@)
}

/// One codeword bit flipped under a perturbation: positions marked `1`
/// are exchanged between zero and one, the rest are kept.
pub open spec fn flip_code(code: Seq<i64>, p: Seq<int>) -> Seq<i64> {
    Seq::new(code.len(), |j: int| if p[j] == 1 {
        (1 - code[j]) as i64
    } else {
        code[j]
    })
}

impl crate::hash::SignRandomProjections {
    /// The probing codewords for query `q`: the query's own codeword
    /// first, then that codeword with each of the first `budget`
    /// step-wise perturbations applied, flipping the marked bits.
    pub fn step_wise_probe(&self, q: &[Fx], budget: usize, hash_len: usize) -> (r: Result<
        Vec<Vec<i64>>,
        Error,
    >)
        requires
            self.wf(),
            q@.len() == self.dim,
            crate::dist::raws_bounded(q@, crate::hash::INPUT_LIMIT as int),
            hash_len == self.k(),
            1 <= hash_len <= 0x7fff_ffff,
        ensures
            match r {
                Ok(codes) => {
                    let full = swp_full(hash_len, 1);
                    let base = crate::hash::srp_code(self.hyperplanes@, q@);
                    &&& codes@.len() == 1 + vstd::math::min(budget as int, full.len() as int)
                    &&& codes@[0]@ == base
                    &&& forall|i: int|
                        1 <= i < codes@.len() ==> (#[trigger] codes@[i])@ == flip_code(
                            base,
                            full[i - 1],
                        )
                },
                Err(e) => false,
            },
    {
        let probing_seq = step_wise_probing(hash_len, budget, false);
        let original_hash = self.hash_vec_query(q);
        proof {
            assert forall|p: int|
                0 <= p < hash_len implies 0 <= #[trigger] original_hash@[p] <= 1 by {
                assert(original_hash@[p] == crate::hash::srp_code_at(self.hyperplanes@, q@, p));
            }
        }
        let mut out: Vec<Vec<i64>> = Vec::new();
        let ghost base = crate::hash::srp_code(self.hyperplanes@, q@);
        let ghost full = swp_full(hash_len, 1);
        out.push(crate::mem_table::copy_code(original_hash.as_slice()));
        let mut i: usize = 0;
        while i < probing_seq.len()
            invariant
                i <= probing_seq@.len(),
                out@.len() == 1 + i,
                out@[0]@ == base,
                original_hash@ == base,
                original_hash@.len() == hash_len,
                probing_seq@.len() == vstd::math::min(budget as int, full.len() as int),
                forall|t: int|
                    0 <= t < probing_seq@.len() ==> (#[trigger] probing_seq@[t])@.len()
                        == hash_len,
                forall|t: int, p: int|
                    0 <= t < probing_seq@.len() && 0 <= p < hash_len ==> (
                    #[trigger] probing_seq@[t]@[p]) as int == full[t][p],
                forall|t: int|
                    1 <= t < 1 + i ==> (#[trigger] out@[t])@ == flip_code(base, full[t - 1]),
                forall|p: int|
                    0 <= p < hash_len ==> 0 <= #[trigger] original_hash@[p] <= 1,
            decreases probing_seq@.len() - i,
        {
            let perturb = &probing_seq[i];
            let mut code: Vec<i64> = Vec::new();
            let mut j: usize = 0;
            while j < original_hash.len()
                invariant
                    j <= original_hash@.len(),
                    original_hash@.len() == hash_len,
                    perturb@.len() == hash_len,
                    original_hash@ == base,
                    forall|p: int|
                        0 <= p < hash_len ==> ((#[trigger] perturb@[p]) as int) == full[
                            i as int][p],
                    code@.len() == j,
                    forall|p: int|
                        0 <= p < j ==> #[trigger] code@[p] == flip_code(base, full[i as int])[p],
                    forall|p: int|
                        0 <= p < hash_len ==> 0 <= #[trigger] original_hash@[p] <= 1,
                decreases original_hash@.len() - j,
            {
                if perturb[j] == 1 {
                    code.push(1 - original_hash[j]);
                } else {
                    code.push(original_hash[j]);
                }
                j += 1;
            }
            proof {
                assert(code@ =~= flip_code(base, full[i as int]));
            }
            out.push(code);
            i += 1;
        }
        Ok(out)
    }
}

/// Raw value of the distance from the query's projection `i` to the
/// lower boundary of its slot.
pub open spec fn xi_min_at(h: crate::hash::L2, v: Seq<Fx>, i: int) -> int {
    (crate::dist::dot_wide(h.a@[i]@, v) + h.b@[i].raw * 65536 - crate::hash::l2_code_at(h, v, i)
        * (h.r.raw * 65536)) / 65536
}

/// The distances of the query to both slot boundaries of every
/// projection: the lower distances followed by the upper ones.
pub open spec fn xi_seq(h: crate::hash::L2, v: Seq<Fx>) -> Seq<Fx> {
    Seq::new(
        (2 * h.a@.len()) as nat,
        |i: int|
            if i < h.a@.len() {
                Fx { raw: xi_min_at(h, v, i) as i64 }
            } else {
                Fx { raw: (h.r.raw - xi_min_at(h, v, i - h.a@.len())) as i64 }
            },
    )
}

/// The codewords visited by query-directed probing for an L2 hasher:
/// the query's own codeword followed by the `budget` best-first
/// perturbations.  Absent when the codeword leaves its range or the
/// budget exceeds the distinct perturbations.
pub open spec fn l2_probe_seq(h: crate::hash::L2, v: Seq<Fx>, budget: nat) -> Option<
    Seq<Seq<int>>,
> {
    if !crate::hash::l2_code_ok(h, v) {
        None
    } else {
        let code = crate::hash::l2_code(h, v);
        let d = xi_seq(h, v);
        let z = argsort_spec(d);
        match qdp_iter(z, d, h.a@.len() as int, code, seq![seq![0usize]], budget) {
            Some(rest) => Some(seq![Seq::new(code.len(), |i: int| code[i] as int)] + rest),
            None => None,
        }
    }
}

impl crate::hash::L2 {
    /// The distances of query `q` to the lower and upper boundary of its
    /// slot, per projection.  Fails exactly when the codeword leaves its
    /// range.
    pub fn distance_to_bound(&self, q: &[Fx]) -> (r: Result<(Vec<Fx>, Vec<Fx>), Error>)
        requires
            self.wf(),
            q@.len() == self.dim,
            crate::dist::raws_bounded(q@, crate::hash::INPUT_LIMIT as int),
        ensures
            match r {
                Ok((mn, mp)) => {
                    &&& crate::hash::l2_code_ok(*self, q@)
                    &&& mn@.len() == self.k()
                    &&& mp@.len() == self.k()
                    &&& forall|i: int|
                        0 <= i < self.k() ==> (#[trigger] mn@[i]).raw == xi_min_at(*self, q@, i)
                    &&& forall|i: int|
                        0 <= i < self.k() ==> (#[trigger] mp@[i]).raw == self.r.raw - xi_min_at(
                            *self,
                            q@,
                            i,
                        )
                    &&& forall|i: int|
                        0 <= i < self.k() ==> 0 <= #[trigger] xi_min_at(*self, q@, i)
                            <= self.r.raw
                },
                Err(e) => e == Error::HashOverflow && !crate::hash::l2_code_ok(*self, q@),
            },
    {
        let k = self.a.len();
        let mut mn: Vec<Fx> = Vec::new();
        let mut mp: Vec<Fx> = Vec::new();
        let mut i: usize = 0;
        while i < k
            invariant
                i <= k,
                k == self.a@.len(),
                self.wf(),
                q@.len() == self.dim,
                crate::dist::raws_bounded(q@, crate::hash::INPUT_LIMIT as int),
                mn@.len() == i,
                mp@.len() == i,
                forall|t: int|
                    0 <= t < i ==> -0x4000_0000_0000_0000 <= #[trigger] crate::hash::l2_code_at(
                        *self,
                        q@,
                        t,
                    ) <= 0x4000_0000_0000_0000,
                forall|t: int|
                    0 <= t < i ==> (#[trigger] mn@[t]).raw == xi_min_at(*self, q@, t),
                forall|t: int|
                    0 <= t < i ==> (#[trigger] mp@[t]).raw == self.r.raw - xi_min_at(
                        *self,
                        q@,
                        t,
                    ),
                forall|t: int|
                    0 <= t < i ==> 0 <= #[trigger] xi_min_at(*self, q@, t) <= self.r.raw,
            decreases k - i,
        {
            let row = &self.a[i];
            let s = crate::dist::dot_fx(row.as_slice(), q);
            let off: i128 = (self.b[i].raw as i128) * 65536;
            let den: i128 = (self.r.raw as i128) * 65536;
            let num: i128 = s + off;
            let qv = crate::fx::floor_div_i128(num, den);
            if qv < -0x4000_0000_0000_0000i128 || qv > 0x4000_0000_0000_0000i128 {
                proof {
                    assert(crate::hash::l2_code_at(*self, q@, i as int) == qv);
                    assert(!crate::hash::l2_code_ok(*self, q@));
                }
                return Err(Error::HashOverflow);
            }
            proof {
                assert(num == den * (num / den) + num % den && 0 <= num % den < den)
                    by (nonlinear_arith)
                    requires
                        den > 0,
                ;
            }
            let rem: i128 = num - qv * den;
            let ximin_wide: i128 = rem;
            let ximin = crate::fx::floor_div_i128(ximin_wide, 65536);
            proof {
                assert(0 <= ximin_wide < den);
                crate::fx::lemma_div_shrinks_magnitude(ximin_wide as int, 65536);
                assert((den / 65536) as int == self.r.raw) by (nonlinear_arith)
                    requires
                        den == (self.r.raw as int) * 65536,
                        self.r.raw > 0,
                ;
                assert(ximin_wide / 65536 <= den / 65536) by (nonlinear_arith)
                    requires
                        0 <= ximin_wide < den,
                ;
                assert(xi_min_at(*self, q@, i as int) == ximin);
            }
            let xm = Fx { raw: ximin as i64 };
            let xp = crate::fx::fx_sub(Fx { raw: self.r.raw }, xm);
            mn.push(xm);
            mp.push(xp);
            i += 1;
        }
        Ok((mn, mp))
    }
}


/// A successful best-first run emits exactly `budget` codewords.
pub proof fn lemma_qdp_len(
    z: Seq<usize>,
    d: Seq<Fx>,
    switch: int,
    hash: Seq<i64>,
    heap: Seq<Seq<usize>>,
    budget: nat,
)
    requires
        qdp_iter(z, d, switch, hash, heap, budget) is Some,
    ensures
        qdp_iter(z, d, switch, hash, heap, budget).unwrap().len() == budget,
    decreases budget,
{
    if budget == 0 {
    } else {
        let m = min_pref(z, d, heap, heap.len() as int);
        let sel = heap[m];
        let heap1 = heap.remove(m);
        let heap2 = if sel.last() + 1 < z.len() {
            heap1.push(shift_sel(sel)).push(expand_sel(sel))
        } else {
            heap1
        };
        lemma_qdp_len(z, d, switch, hash, heap2, (budget - 1) as nat);
    }
}

impl crate::hash::L2 {
    /// The probing codewords for query `q`: the query's own codeword
    /// followed by `budget` best-first perturbations of it.  Fails with
    /// [`Error::HashOverflow`] when the codeword leaves its range and
    /// with [`Error::MultiProbeExhausted`] when the budget exceeds the
    /// number of distinct perturbations.
    pub fn query_directed_probe(&self, q: &[Fx], budget: usize) -> (r: Result<
        Vec<Vec<i64>>,
        Error,
    >)
        requires
            self.wf(),
            q@.len() == self.dim,
            crate::dist::raws_bounded(q@, crate::hash::INPUT_LIMIT as int),
            1 <= self.k() <= 0x7fff_ffff,
        ensures
            match r {
                Ok(hs) => {
                    let probes = l2_probe_seq(*self, q@, budget as nat);
                    &&& probes is Some
                    &&& hs@.len() == budget + 1
                    &&& hs@.len() == probes.unwrap().len()
                    &&& forall|i: int|
                        0 <= i < hs@.len() ==> (#[trigger] hs@[i])@.len() == self.k()
                    &&& forall|i: int, p: int|
                        0 <= i < hs@.len() && 0 <= p < self.k() ==> ((
                        #[trigger] hs@[i]@[p]) as int) == probes.unwrap()[i][p]
                    &&& hs@[0]@ == crate::hash::l2_code(*self, q@)
                },
                Err(e) => e == Error::HashOverflow && !crate::hash::l2_code_ok(*self, q@) || e
                    == Error::MultiProbeExhausted && l2_probe_seq(*self, q@, budget as nat)
                    is None && crate::hash::l2_code_ok(*self, q@),
            },
    {
        let code = match self.hash_vec_query(q) {
            Ok(c) => c,
            Err(e) => {
                return Err(e);
            },
        };
        let (mn, mp) = match self.distance_to_bound(q) {
            Ok(t) => t,
            Err(e) => {
                return Err(e);
            },
        };
        let k = self.a.len();
        let mut dists: Vec<Fx> = Vec::new();
        let mut i: usize = 0;
        while i < k
            invariant
                i <= k,
                mn@.len() == k,
                dists@.len() == i,
                forall|t: int| 0 <= t < i ==> #[trigger] dists@[t] == mn@[t],
            decreases k - i,
        {
            dists.push(mn[i]);
            i += 1;
        }
        let mut i: usize = 0;
        while i < k
            invariant
                i <= k,
                mn@.len() == k,
                mp@.len() == k,
                dists@.len() == k + i,
                forall|t: int| 0 <= t < k ==> #[trigger] dists@[t] == mn@[t],
                forall|t: int| k <= t < k + i ==> #[trigger] dists@[t] == mp@[t - k],
            decreases k - i,
        {
            dists.push(mp[i]);
            i += 1;
        }
        proof {
            assert(dists@ =~= xi_seq(*self, q@));
        }
        let ghost gd = dists@;
        let z = argsort(&dists);
        let ghost gz = z@;
        let ghost gcode = code@;
        proof {
            assert(forall|j: int|
                0 <= j < gcode.len() ==> -0x4000_0000_0000_0000 <= #[trigger] gcode[j]
                    <= 0x4000_0000_0000_0000) by {
                assert forall|j: int|
                    0 <= j < gcode.len() implies -0x4000_0000_0000_0000 <= #[trigger] gcode[j]
                    <= 0x4000_0000_0000_0000 by {
                    assert(gcode[j] == crate::hash::l2_code_at(*self, q@, j) as i64);
                }
            }
        }
        let mut hashes: Vec<Vec<i64>> = Vec::new();
        hashes.push(crate::mem_table::copy_code(code.as_slice()));
        let a0 = PerturbState::new(z, dists, k, code);
        let mut heap: Vec<PerturbState> = Vec::new();
        heap.push(a0);
        proof {
            assert(sels_of(heap@) =~= seq![seq![0usize]]);
        }
        let ghost total = qdp_iter(gz, gd, k as int, gcode, seq![seq![0usize]], budget as nat);
        let ghost done = Seq::<Seq<int>>::empty();
        let mut it: usize = 0;
        while it < budget
            invariant
                it <= budget,
                k == self.a@.len(),
                1 <= k <= 0x7fff_ffff,
                gz.len() == 2 * k,
                gd.len() == 2 * k,
                gcode.len() == k,
                gd == xi_seq(*self, q@),
                gz == argsort_spec(gd),
                gcode == crate::hash::l2_code(*self, q@),
                crate::hash::l2_code_ok(*self, q@),
                total == qdp_iter(gz, gd, k as int, gcode, seq![seq![0usize]], budget as nat),
                hashes@.len() == 1 + it,
                hashes@[0]@ == gcode,
                done.len() == it,
                forall|t: int|
                    0 <= t < hashes@.len() ==> (#[trigger] hashes@[t])@.len() == k,
                forall|t: int, p: int|
                    1 <= t < hashes@.len() && 0 <= p < k ==> ((
                    #[trigger] hashes@[t]@[p]) as int) == done[t - 1][p],
                forall|j: int|
                    0 <= j < heap@.len() ==> (#[trigger] heap@[j]).wf() && heap@[j].z@ == gz
                        && heap@[j].distances@ == gd && heap@[j].switchpoint == k
                        && heap@[j].original_hash@ == gcode,
                total == (match qdp_iter(gz, gd, k as int, gcode, sels_of(heap@), (budget
                    - it) as nat) {
                    Some(rest) => Some(done + rest),
                    None => None::<Seq<Seq<int>>>,
                }),
            decreases budget - it,
        {
            if heap.len() == 0 {
                proof {
                    assert(sels_of(heap@) =~= Seq::<Seq<usize>>::empty());
                    assert(qdp_iter(gz, gd, k as int, gcode, sels_of(heap@), (budget
                        - it) as nat) is None);
                    assert(total is None);
                }
                return Err(Error::MultiProbeExhausted);
            }
            let ghost cur_sels = sels_of(heap@);
            let mut best: usize = 0;
            let mut bs = heap[0].score();
            let mut j: usize = 1;
            while j < heap.len()
                invariant
                    1 <= j <= heap@.len(),
                    heap@.len() >= 1,
                    best < j,
                    forall|t: int|
                        0 <= t < heap@.len() ==> (#[trigger] heap@[t]).wf() && heap@[t].z@ == gz
                            && heap@[t].distances@ == gd,
                    cur_sels == sels_of(heap@),
                    best == min_pref(gz, gd, cur_sels, j as int),
                    bs == score_of(gz, gd, cur_sels[best as int]),
                decreases heap@.len() - j,
            {
                let sc = heap[j].score();
                if sc < bs {
                    best = j;
                    bs = sc;
                }
                j += 1;
            }
            proof {
                lemma_min_pref_range(gz, gd, cur_sels, cur_sels.len() as int);
            }
            let ai = heap.remove(best);
            proof {
                assert(sels_of(heap@) =~= cur_sels.remove(best as int));
            }
            let ghost sel = cur_sels[best as int];
            let mut a_s = ai.duplicate();
            let mut a_e = ai.duplicate();
            let ghost heap1 = sels_of(heap@);
            match a_s.shift() {
                Ok(()) => {
                    heap.push(a_s);
                    proof {
                        assert(sels_of(heap@) =~= heap1.push(shift_sel(sel)));
                    }
                },
                Err(_) => {},
            }
            let ghost heap_mid = sels_of(heap@);
            match a_e.expand() {
                Ok(()) => {
                    heap.push(a_e);
                    proof {
                        assert(sels_of(heap@) =~= heap_mid.push(expand_sel(sel)));
                    }
                },
                Err(_) => {},
            }
            proof {
                if sel.last() + 1 < gz.len() {
                    assert(sels_of(heap@) =~= cur_sels.remove(best as int).push(
                        shift_sel(sel),
                    ).push(expand_sel(sel)));
                } else {
                    assert(sels_of(heap@) =~= cur_sels.remove(best as int));
                }
            }
            let h = ai.gen_hash();
            hashes.push(h);
            proof {
                let elem = gen_spec(gcode, gz, k as int, sel);
                let old_done = done;
            }
            proof {
                let elem = gen_spec(gcode, gz, k as int, sel);
                let rest_opt = qdp_iter(gz, gd, k as int, gcode, sels_of(heap@), (budget - it
                    - 1) as nat);
                assert(qdp_iter(gz, gd, k as int, gcode, cur_sels, (budget - it) as nat) == (
                match rest_opt {
                    Some(rest) => Some(seq![elem] + rest),
                    None => None::<Seq<Seq<int>>>,
                }));
                match rest_opt {
                    Some(rest) => {
                        assert(done + (seq![elem] + rest) =~= done.push(elem) + rest);
                    },
                    None => {},
                }
            }
            proof {
                done = done.push(gen_spec(gcode, gz, k as int, sel));
            }
            it += 1;
        }
        proof {
            assert(qdp_iter(gz, gd, k as int, gcode, sels_of(heap@), 0) == Some(Seq::<Seq<
                int,
            >>::empty()));
            assert(done + Seq::<Seq<int>>::empty() =~= done);
            assert(total == Some(done));
            let probes = l2_probe_seq(*self, q@, budget as nat);
            assert(probes is Some);
            let full = probes.unwrap();
            assert(full == seq![Seq::new(gcode.len(), |i: int| gcode[i] as int)] + done);
            lemma_qdp_len(gz, gd, k as int, gcode, seq![seq![0usize]], budget as nat);
            assert forall|t: int, p: int|
                0 <= t < hashes@.len() && 0 <= p < k implies ((
                #[trigger] hashes@[t]@[p]) as int) == full[t][p] by {
                if t == 0 {
                    assert(full[0] == Seq::new(gcode.len(), |i: int| gcode[i] as int));
                } else {
                    assert(full[t] == done[t - 1]);
                }
            }
        }
        Ok(hashes)
    }
}

/// The codewords visited by query-directed probing for a MIPS hasher:
/// the L2 run over the transformed query.
pub open spec fn mips_probe_seq(h: crate::hash::MIPS, x: Seq<Fx>, budget: nat) -> Option<
    Seq<Seq<int>>,
> {
    if !crate::hash::mips_query_ok(h, x) {
        None
    } else {
        l2_probe_seq(h.hasher, crate::hash::mips_query_vec(h, x), budget)
    }
}

impl crate::hash::MIPS {
    /// The probing codewords for query `q`: the transformed query's
    /// codeword followed by `budget` best-first perturbations of it.
    pub fn query_directed_probe(&self, q: &[Fx], budget: usize) -> (r: Result<
        Vec<Vec<i64>>,
        Error,
    >)
        requires
            self.wf(),
            q@.len() == self.dim,
            crate::dist::raws_bounded(q@, crate::hash::INPUT_LIMIT as int),
            1 <= self.k() <= 0x7fff_ffff,
        ensures
            match r {
                Ok(hs) => {
                    let probes = mips_probe_seq(*self, q@, budget as nat);
                    &&& probes is Some
                    &&& hs@.len() == budget + 1
                    &&& forall|i: int|
                        0 <= i < hs@.len() ==> (#[trigger] hs@[i])@.len() == self.k()
                    &&& forall|i: int, p: int|
                        0 <= i < hs@.len() && 0 <= p < self.k() ==> ((
                        #[trigger] hs@[i]@[p]) as int) == probes.unwrap()[i][p]
                },
                Err(e) => mips_probe_seq(*self, q@, budget as nat) is None && (e
                    == Error::Failed || e == Error::HashOverflow || e
                    == Error::MultiProbeExhausted),
            },
    {
        let t = match self.transform_query(q) {
            Ok(t) => t,
            Err(e) => {
                return Err(e);
            },
        };
        let r = self.hasher.query_directed_probe(t.as_slice(), budget);
        match r {
            Ok(hs) => Ok(hs),
            Err(e) => Err(e),
        }
    }
}


/// A present L2 probing run has `budget + 1` codewords.
pub proof fn lemma_l2_probe_len(h: crate::hash::L2, v: Seq<Fx>, budget: nat)
    requires
        l2_probe_seq(h, v, budget) is Some,
    ensures
        l2_probe_seq(h, v, budget).unwrap().len() == budget + 1,
{
    let code = crate::hash::l2_code(h, v);
    let d = xi_seq(h, v);
    let z = argsort_spec(d);
    lemma_qdp_len(z, d, h.a@.len() as int, code, seq![seq![0usize]], budget);
}

} // verus!
