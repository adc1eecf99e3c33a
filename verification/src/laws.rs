//! The index's laws: self-retrieval after insertion, the effect of
//! updates on queries, scale invariance of the sign family, the
//! near-equality of L2 codewords for close queries, and the behaviour of
//! the multi-probe union as the budget grows.

use vstd::prelude::*;
use crate::dist::dot_wide;
use crate::fx::Fx;
use crate::hash::{l2_code_at, srp_code, srp_code_at, Hasher, L2};
use crate::lsh::{Backend, LSH};
use crate::multi_probe::{l2_probe_seq, lemma_l2_probe_len, lemma_qdp_prefix, qdp_iter};

verus! {

/// A bucket of one table is contained in the single-probe union over at
/// least that many tables.
proof fn lemma_single_union_contains(l: LSH, v: Seq<Fx>, t: int, n: int)
    requires
        0 <= t < n,
    ensures
        l.hash_tables.bucket(t, l.query_code_at(v, t)) <= l.single_union_upto(v, n),
    decreases n,
{
    if t == n - 1 {
        assert forall|id: u32|
            l.hash_tables.bucket(t, l.query_code_at(v, t)).contains(id) implies
            l.single_union_upto(v, n).contains(id) by {}
    } else {
        lemma_single_union_contains(l, v, t, n - 1);
        assert forall|id: u32|
            l.hash_tables.bucket(t, l.query_code_at(v, t)).contains(id) implies
            l.single_union_upto(v, n).contains(id) by {
            assert(l.single_union_upto(v, n - 1).contains(id));
        }
    }
}

/// If no table's bucket holds an id, the single-probe union does not
/// hold it either.
proof fn lemma_single_union_absent(l: LSH, v: Seq<Fx>, n: int, id: u32)
    requires
        forall|t: int|
            0 <= t < n ==> !(#[trigger] l.hash_tables.bucket(t, l.query_code_at(v, t)).contains(
                id,
            )),
    ensures
        !l.single_union_upto(v, n).contains(id),
    decreases n,
{
    if n <= 0 {
    } else {
        lemma_single_union_absent(l, v, n - 1, id);
    }
}

/// Self-retrieval: after a point is stored in an index with a symmetric
/// hash family and single-probe queries, the query for that same point
/// returns its id; this holds for the in-memory and both SQL backends.
/// The hypotheses are what `store_vec` ensures on success.  (The
/// asymmetric MIPS family is excluded, since its insertion and query
/// codewords differ; for multi-probe queries see
/// `lemma_store_vec_self_retrieval_multi_probe`.)
pub proof fn lemma_store_vec_self_retrieval(pre: LSH, post: LSH, v: Seq<Fx>, id: u32)
    requires
        pre.wf(),
        post.wf(),
        post.same_config(pre),
        !pre.multi_probe,
        forall|i: int|
            0 <= i < pre.hashers@.len() ==> (#[trigger] pre.hashers@[i]).symmetric(),
        pre.put_codes_ok(v),
        match (pre.hash_tables, post.hash_tables) {
            (Backend::Mem(m0), Backend::Mem(m1)) => forall|t: int|
                0 <= t < pre.n_hash_tables ==> #[trigger] m1.bucket(t, pre.put_code_at(v, t))
                    == m0.bucket(t, pre.put_code_at(v, t)).insert(id),
            (Backend::Sql(s0), Backend::Sql(s1)) => forall|t: int|
                0 <= t < pre.n_hash_tables ==> #[trigger] s1.bucket(t, pre.put_code_at(v, t))
                    == s0.bucket(t, pre.put_code_at(v, t)).insert(id),
            (Backend::SqlMem(s0), Backend::SqlMem(s1)) => forall|t: int|
                0 <= t < pre.n_hash_tables ==> #[trigger] s1.sql_table.bucket(
                    t,
                    pre.put_code_at(v, t),
                ) == s0.sql_table.bucket(t, pre.put_code_at(v, t)).insert(id),
            _ => false,
        },
    ensures
        post.query_result(v).contains(id),
{
    assert forall|t: int|
        0 <= t < post.n_hash_tables implies #[trigger] post.hash_tables.bucket(
        t,
        post.query_code_at(v, t),
    ).contains(id) by {
        assert(pre.hashers@[t].put_code(v) == pre.hashers@[t].query_code(v));
        assert(post.query_code_at(v, t) == pre.put_code_at(v, t));
    }
    lemma_single_union_contains(post, v, 0, post.n_hash_tables as int);
    assert(post.hash_tables.bucket(0, post.query_code_at(v, 0)).contains(id));
}

/// Moving an id to new codewords: after `update_by_idx` with codewords
/// that differ in every table, the query for the new point returns the
/// id and the query for the old point no longer does.  The hypotheses
/// are what `update_by_idx` ensures on success.
pub proof fn lemma_update_by_idx_moves_id(
    pre: LSH,
    post: LSH,
    new_v: Seq<Fx>,
    old_v: Seq<Fx>,
    idx: u32,
)
    requires
        pre.wf(),
        post.wf(),
        post.same_config(pre),
        !pre.multi_probe,
        forall|i: int|
            0 <= i < pre.hashers@.len() ==> (#[trigger] pre.hashers@[i]).symmetric(),
        pre.put_codes_ok(new_v),
        pre.put_codes_ok(old_v),
        forall|t: int|
            0 <= t < pre.n_hash_tables ==> #[trigger] pre.put_code_at(new_v, t)
                != pre.put_code_at(old_v, t),
        match (pre.hash_tables, post.hash_tables) {
            (Backend::Mem(m0), Backend::Mem(m1)) => (forall|t: int|
                0 <= t < pre.n_hash_tables ==> #[trigger] m1.bucket(
                    t,
                    pre.put_code_at(old_v, t),
                ) == m0.bucket(t, pre.put_code_at(old_v, t)).remove(idx)) && (forall|t: int|
                0 <= t < pre.n_hash_tables ==> #[trigger] m1.bucket(
                    t,
                    pre.put_code_at(new_v, t),
                ) == m0.bucket(t, pre.put_code_at(new_v, t)).insert(idx)),
            _ => false,
        },
    ensures
        post.query_result(new_v).contains(idx),
        !post.query_result(old_v).contains(idx),
{
    assert forall|t: int|
        0 <= t < post.n_hash_tables implies #[trigger] post.hash_tables.bucket(
        t,
        post.query_code_at(new_v, t),
    ).contains(idx) by {
        assert(pre.hashers@[t].put_code(new_v) == pre.hashers@[t].query_code(new_v));
        assert(post.query_code_at(new_v, t) == pre.put_code_at(new_v, t));
    }
    lemma_single_union_contains(post, new_v, 0, post.n_hash_tables as int);
    assert(post.hash_tables.bucket(0, post.query_code_at(new_v, 0)).contains(idx));
    assert forall|t: int|
        0 <= t < post.n_hash_tables implies !(#[trigger] post.hash_tables.bucket(
        t,
        post.query_code_at(old_v, t),
    ).contains(idx)) by {
        assert(pre.hashers@[t].put_code(old_v) == pre.hashers@[t].query_code(old_v));
        assert(post.query_code_at(old_v, t) == pre.put_code_at(old_v, t));
    }
    lemma_single_union_absent(post, old_v, post.n_hash_tables as int, idx);
}

/// The sequence whose raw values are `c` times those of `v`.
pub open spec fn scaled_point(v: Seq<Fx>, c: int) -> Seq<Fx> {
    Seq::new(v.len(), |j: int| Fx { raw: (c * v[j].raw) as i64 })
}

/// The wide dot product is linear in an exact integer scaling of one
/// argument.
proof fn lemma_dot_wide_scale(a: Seq<Fx>, v: Seq<Fx>, c: int)
    requires
        a.len() == v.len(),
        forall|j: int|
            0 <= j < v.len() ==> i64::MIN <= c * (#[trigger] v[j]).raw <= i64::MAX,
    ensures
        dot_wide(a, scaled_point(v, c)) == c * dot_wide(a, v),
    decreases v.len(),
{
    if v.len() == 0 {
        assert(c * dot_wide(a, v) == 0) by (nonlinear_arith)
            requires
                dot_wide(a, v) == 0,
        ;
    } else {
        assert(scaled_point(v, c).drop_last() =~= scaled_point(v.drop_last(), c));
        lemma_dot_wide_scale(a.drop_last(), v.drop_last(), c);
        let s = dot_wide(a.drop_last(), v.drop_last());
        let p = a.last().raw as int;
        let q = v.last().raw as int;
        assert(scaled_point(v, c).last().raw == c * q);
        assert(p * (c * q) == c * (p * q)) by (nonlinear_arith);
        assert(c * s + c * (p * q) == c * (s + p * q)) by (nonlinear_arith);
    }
}

/// Scale invariance of sign random projections: an exact positive
/// integer scaling of the input (a point with cosine similarity one)
/// produces the same codeword, ties included, since a zero projection
/// stays zero under scaling.
pub proof fn lemma_srp_scale_invariant(planes: Seq<Vec<Fx>>, v: Seq<Fx>, c: int)
    requires
        c >= 1,
        forall|i: int| 0 <= i < planes.len() ==> (#[trigger] planes[i])@.len() == v.len(),
        forall|j: int|
            0 <= j < v.len() ==> i64::MIN <= c * (#[trigger] v[j]).raw <= i64::MAX,
    ensures
        srp_code(planes, scaled_point(v, c)) == srp_code(planes, v),
{
    assert forall|i: int|
        0 <= i < planes.len() implies srp_code_at(planes, scaled_point(v, c), i) == srp_code_at(
        planes,
        v,
        i,
    ) by {
        lemma_dot_wide_scale(planes[i]@, v, c);
        let d = dot_wide(planes[i]@, v);
        assert(d > 0 ==> c * d > 0) by (nonlinear_arith)
            requires
                c >= 1,
        ;
        assert(d <= 0 ==> c * d <= 0) by (nonlinear_arith)
            requires
                c >= 1,
        ;
    }
    assert(srp_code(planes, scaled_point(v, c)) =~= srp_code(planes, v));
}

/// Floors of two values within one slot width of each other differ by at
/// most one.
proof fn lemma_floor_close(x: int, y: int, den: int)
    requires
        den > 0,
        -den < x - y < den,
    ensures
        -1 <= x / den - y / den <= 1,
{
    let qx = x / den;
    let qy = y / den;
    assert(x == den * qx + x % den && 0 <= x % den < den) by (nonlinear_arith)
        requires
            den > 0,
            qx == x / den,
    ;
    assert(y == den * qy + y % den && 0 <= y % den < den) by (nonlinear_arith)
        requires
            den > 0,
            qy == y / den,
    ;
    assert(-1 <= qx - qy <= 1) by (nonlinear_arith)
        requires
            den > 0,
            x == den * qx + x % den,
            0 <= x % den < den,
            y == den * qy + y % den,
            0 <= y % den < den,
            -den < x - y < den,
    ;
}

/// Near-equality of L2 codewords: when every projection of two queries
/// differs by less than the slot width (the queries are close enough),
/// no codeword element differs by more than one.
pub proof fn lemma_l2_code_near(h: L2, v: Seq<Fx>, w: Seq<Fx>)
    requires
        forall|i: int|
            0 <= i < h.a@.len() ==> -(h.r.raw * 65536) < dot_wide(#[trigger] h.a@[i]@, v)
                - dot_wide(h.a@[i]@, w) < h.r.raw * 65536,
        h.r.raw > 0,
    ensures
        forall|i: int|
            0 <= i < h.a@.len() ==> -1 <= #[trigger] l2_code_at(h, v, i) - l2_code_at(h, w, i)
                <= 1,
{
    assert forall|i: int|
        0 <= i < h.a@.len() implies -1 <= #[trigger] l2_code_at(h, v, i) - l2_code_at(h, w, i)
        <= 1 by {
        let num_v = dot_wide(h.a@[i]@, v) + h.b@[i].raw * 65536;
        let num_w = dot_wide(h.a@[i]@, w) + h.b@[i].raw * 65536;
        let den = h.r.raw * 65536;
        assert(h.r.raw * 65536 > 0) by (nonlinear_arith)
            requires
                h.r.raw > 0,
        ;
        lemma_floor_close(num_v, num_w, den);
    }
}

/// With budget zero, a query-directed multi-probe union equals the
/// single-probe union: the only probed codeword per table is the query's
/// own.
pub proof fn lemma_multi_probe_budget_zero(l: LSH, v: Seq<Fx>)
    requires
        l.wf(),
        l.multi_probe,
        l.multi_probe_budget == 0,
        forall|t: int|
            0 <= t < l.hashers@.len() ==> (#[trigger] l.hashers@[t]) is Srp || l.hashers@[t]
                is L2 || l.hashers@[t] is Mips,
        l.probes_ok(v),
        l.query_codes_ok(v),
    ensures
        l.multi_union(v) == l.single_union(v),
{
    assert forall|t: int|
        0 <= t < l.n_hash_tables implies #[trigger] l.probe_union_upto(
        v,
        t,
        l.probes_of(v, t).unwrap().len() as int,
    ) == l.hash_tables.bucket(t, l.query_code_at(v, t)) by {
        let probes = l.probes_of(v, t).unwrap();
        match l.hashers@[t] {
            Hasher::Srp(sh) => {
                let base = crate::hash::srp_code(sh.hyperplanes@, v);
                let flips = Seq::new(
                    vstd::math::min(
                        l.multi_probe_budget as int,
                        crate::multi_probe::swp_full(l.n_projections, 1).len() as int,
                    ) as nat,
                    |i: int| crate::multi_probe::flip_code(
                        base,
                        crate::multi_probe::swp_full(l.n_projections, 1)[i],
                    ),
                );
                assert(probes == seq![base] + flips);
                assert(flips.len() == 0);
                assert(probes.len() == 1);
                assert(probes[0] == base);
                assert(l.query_code_at(v, t) == base);
                assert(l.probe_union_upto(v, t, 0) =~= Set::<u32>::empty());
                assert(l.probe_union_upto(v, t, 1) =~= l.hash_tables.bucket(t, probes[0]));
            },
            Hasher::L2(h) => {
                let ints = l2_probe_seq(h, v, 0).unwrap();
                lemma_l2_probe_len(h, v, 0);
                assert(probes.len() == 1);
                assert(qdp_iter(
                    crate::multi_probe::argsort_spec(crate::multi_probe::xi_seq(h, v)),
                    crate::multi_probe::xi_seq(h, v),
                    h.a@.len() as int,
                    crate::hash::l2_code(h, v),
                    seq![seq![0usize]],
                    0,
                ) == Some(Seq::<Seq<int>>::empty()));
                assert(ints[0] == Seq::new(
                    crate::hash::l2_code(h, v).len(),
                    |i: int| crate::hash::l2_code(h, v)[i] as int,
                ));
                assert(probes[0] == crate::lsh::ints_to_code(ints[0], l.n_projections as nat));
                assert(probes[0] =~= crate::hash::l2_code(h, v));
                assert(l.query_code_at(v, t) == crate::hash::l2_code(h, v));
                assert(l.probe_union_upto(v, t, 0) =~= Set::<u32>::empty());
                assert(l.probe_union_upto(v, t, 1) =~= l.hash_tables.bucket(t, probes[0]));
            },
            Hasher::Mips(h) => {
                let q2 = crate::hash::mips_query_vec(h, v);
                let inner = h.hasher;
                let ints = l2_probe_seq(inner, q2, 0).unwrap();
                lemma_l2_probe_len(inner, q2, 0);
                assert(probes.len() == 1);
                assert(qdp_iter(
                    crate::multi_probe::argsort_spec(crate::multi_probe::xi_seq(inner, q2)),
                    crate::multi_probe::xi_seq(inner, q2),
                    inner.a@.len() as int,
                    crate::hash::l2_code(inner, q2),
                    seq![seq![0usize]],
                    0,
                ) == Some(Seq::<Seq<int>>::empty()));
                assert(ints[0] == Seq::new(
                    crate::hash::l2_code(inner, q2).len(),
                    |i: int| crate::hash::l2_code(inner, q2)[i] as int,
                ));
                assert(probes[0] == crate::lsh::ints_to_code(ints[0], l.n_projections as nat));
                assert(probes[0] =~= crate::hash::l2_code(inner, q2));
                assert(l.query_code_at(v, t) == crate::hash::l2_code(inner, q2));
                assert(l.probe_union_upto(v, t, 0) =~= Set::<u32>::empty());
                assert(l.probe_union_upto(v, t, 1) =~= l.hash_tables.bucket(t, probes[0]));
            },
            _ => {
                assert(false);
            },
        }
    }
    lemma_union_eq(l, v, l.n_hash_tables as int);
}

/// When every table's probe union equals its single bucket, the unions
/// agree at every prefix length.
proof fn lemma_union_eq(l: LSH, v: Seq<Fx>, n: int)
    requires
        forall|t: int|
            0 <= t < n ==> #[trigger] l.probe_union_upto(
                v,
                t,
                l.probes_of(v, t).unwrap().len() as int,
            ) == l.hash_tables.bucket(t, l.query_code_at(v, t)),
        n <= l.n_hash_tables,
    ensures
        l.multi_union_upto(v, n) == l.single_union_upto(v, n),
    decreases n,
{
    if n <= 0 {
        assert(l.multi_union_upto(v, n) =~= l.single_union_upto(v, n));
    } else {
        lemma_union_eq(l, v, n - 1);
    }
}

/// A longer probing list unions at least as many ids.
proof fn lemma_probe_union_monotone(l1: LSH, l2: LSH, v: Seq<Fx>, t: int, i: int)
    requires
        l1.hash_tables == l2.hash_tables,
        l1.probes_of(v, t) is Some,
        l2.probes_of(v, t) is Some,
        l1.probes_of(v, t).unwrap().is_prefix_of(l2.probes_of(v, t).unwrap()),
        0 <= i <= l1.probes_of(v, t).unwrap().len(),
    ensures
        l1.probe_union_upto(v, t, i) <= l2.probe_union_upto(v, t, i),
    decreases i,
{
    if i <= 0 {
    } else {
        lemma_probe_union_monotone(l1, l2, v, t, i - 1);
        assert(l1.probes_of(v, t).unwrap()[i - 1] == l2.probes_of(v, t).unwrap()[i - 1]);
        assert forall|id: u32|
            l1.probe_union_upto(v, t, i).contains(id) implies l2.probe_union_upto(
            v,
            t,
            i,
        ).contains(id) by {
            if l1.probe_union_upto(v, t, i - 1).contains(id) {
                assert(l2.probe_union_upto(v, t, i - 1).contains(id));
            }
        }
    }
}

/// A prefix of a probe union is contained in the whole probe union.
proof fn lemma_probe_union_grows(l: LSH, v: Seq<Fx>, t: int, i: int, n: int)
    requires
        0 <= i <= n,
    ensures
        l.probe_union_upto(v, t, i) <= l.probe_union_upto(v, t, n),
    decreases n,
{
    if n <= 0 || i == n {
    } else {
        lemma_probe_union_grows(l, v, t, i, n - 1);
        assert forall|id: u32|
            l.probe_union_upto(v, t, i).contains(id) implies l.probe_union_upto(
            v,
            t,
            n,
        ).contains(id) by {
            assert(l.probe_union_upto(v, t, n - 1).contains(id));
        }
    }
}

/// Raising the budget of a query-directed multi-probe query can only
/// enlarge the union: the probing lists of the smaller budget are
/// prefixes of those of the larger one.
pub proof fn lemma_multi_probe_budget_monotone(l1: LSH, l2: LSH, v: Seq<Fx>)
    requires
        l1.wf(),
        l2.wf(),
        l1.n_hash_tables == l2.n_hash_tables,
        l1.n_projections == l2.n_projections,
        l1.hashers@ == l2.hashers@,
        l1.hash_tables == l2.hash_tables,
        l1.multi_probe,
        l2.multi_probe,
        l1.multi_probe_budget <= l2.multi_probe_budget,
        forall|t: int|
            0 <= t < l1.hashers@.len() ==> (#[trigger] l1.hashers@[t]) is Srp || l1.hashers@[t]
                is L2 || l1.hashers@[t] is Mips,
        l2.probes_ok(v),
    ensures
        l1.probes_ok(v),
        l1.multi_union(v) <= l2.multi_union(v),
{
    assert forall|t: int|
        0 <= t < l1.hashers@.len() implies (#[trigger] l1.probes_of(v, t)) is Some
        && l1.probes_of(v, t).unwrap().is_prefix_of(l2.probes_of(v, t).unwrap()) by {
        match l1.hashers@[t] {
            Hasher::Srp(sh) => {
                let base = crate::hash::srp_code(sh.hyperplanes@, v);
                let full = crate::multi_probe::swp_full(l1.n_projections, 1);
                let m1 = vstd::math::min(l1.multi_probe_budget as int, full.len() as int);
                let m2 = vstd::math::min(l2.multi_probe_budget as int, full.len() as int);
                let f1 = Seq::new(
                    m1 as nat,
                    |i: int| crate::multi_probe::flip_code(base, full[i]),
                );
                let f2 = Seq::new(
                    m2 as nat,
                    |i: int| crate::multi_probe::flip_code(base, full[i]),
                );
                let p1 = l1.probes_of(v, t).unwrap();
                let p2 = l2.probes_of(v, t).unwrap();
                assert(p1 == seq![base] + f1);
                assert(p2 == seq![base] + f2);
                assert(m1 <= m2);
                assert forall|x: int| 0 <= x < p1.len() implies p1[x] == #[trigger] p2[x] by {
                    if x > 0 {
                        assert(p1[x] == f1[x - 1]);
                        assert(p2[x] == f2[x - 1]);
                    }
                }
                assert(p1 =~= p2.take(p1.len() as int));
            },
            Hasher::L2(h) => {
                assert(l2.probes_of(v, t) is Some);
                assert(l2_probe_seq(h, v, l2.multi_probe_budget as nat) is Some);
                let code = crate::hash::l2_code(h, v);
                let d = crate::multi_probe::xi_seq(h, v);
                let z = crate::multi_probe::argsort_spec(d);
                lemma_qdp_prefix(
                    z,
                    d,
                    h.a@.len() as int,
                    code,
                    seq![seq![0usize]],
                    l1.multi_probe_budget as nat,
                    l2.multi_probe_budget as nat,
                );
                let i1 = l2_probe_seq(h, v, l1.multi_probe_budget as nat).unwrap();
                let i2 = l2_probe_seq(h, v, l2.multi_probe_budget as nat).unwrap();
                lemma_l2_probe_len(h, v, l1.multi_probe_budget as nat);
                lemma_l2_probe_len(h, v, l2.multi_probe_budget as nat);
                assert forall|x: int| 0 <= x < i1.len() implies i1[x] == #[trigger] i2[x] by {
                    if x > 0 {
                        let r1 = qdp_iter(
                            z,
                            d,
                            h.a@.len() as int,
                            code,
                            seq![seq![0usize]],
                            l1.multi_probe_budget as nat,
                        ).unwrap();
                        let r2 = qdp_iter(
                            z,
                            d,
                            h.a@.len() as int,
                            code,
                            seq![seq![0usize]],
                            l2.multi_probe_budget as nat,
                        ).unwrap();
                        assert(i1[x] == r1[x - 1]);
                        assert(i2[x] == r2[x - 1]);
                        assert(r1[x - 1] == r2[x - 1]);
                    }
                }
                let p1 = l1.probes_of(v, t).unwrap();
                let p2 = l2.probes_of(v, t).unwrap();
                assert forall|x: int| 0 <= x < p1.len() implies p1[x] == #[trigger] p2[x] by {
                    assert(p1[x] == crate::lsh::ints_to_code(i1[x], l1.n_projections as nat));
                    assert(p2[x] == crate::lsh::ints_to_code(i2[x], l2.n_projections as nat));
                }
                assert(p1.len() <= p2.len());
                assert(p1 =~= p2.take(p1.len() as int));
            },
            Hasher::Mips(h) => {
                assert(l2.probes_of(v, t) is Some);
                let q2 = crate::hash::mips_query_vec(h, v);
                let inner = h.hasher;
                assert(l2_probe_seq(inner, q2, l2.multi_probe_budget as nat) is Some);
                let code = crate::hash::l2_code(inner, q2);
                let d = crate::multi_probe::xi_seq(inner, q2);
                let z = crate::multi_probe::argsort_spec(d);
                lemma_qdp_prefix(
                    z,
                    d,
                    inner.a@.len() as int,
                    code,
                    seq![seq![0usize]],
                    l1.multi_probe_budget as nat,
                    l2.multi_probe_budget as nat,
                );
                let i1 = l2_probe_seq(inner, q2, l1.multi_probe_budget as nat).unwrap();
                let i2 = l2_probe_seq(inner, q2, l2.multi_probe_budget as nat).unwrap();
                lemma_l2_probe_len(inner, q2, l1.multi_probe_budget as nat);
                lemma_l2_probe_len(inner, q2, l2.multi_probe_budget as nat);
                assert forall|x: int| 0 <= x < i1.len() implies i1[x] == #[trigger] i2[x] by {
                    if x > 0 {
                        let r1 = qdp_iter(
                            z,
                            d,
                            inner.a@.len() as int,
                            code,
                            seq![seq![0usize]],
                            l1.multi_probe_budget as nat,
                        ).unwrap();
                        let r2 = qdp_iter(
                            z,
                            d,
                            inner.a@.len() as int,
                            code,
                            seq![seq![0usize]],
                            l2.multi_probe_budget as nat,
                        ).unwrap();
                        assert(i1[x] == r1[x - 1]);
                        assert(i2[x] == r2[x - 1]);
                        assert(r1[x - 1] == r2[x - 1]);
                    }
                }
                let p1 = l1.probes_of(v, t).unwrap();
                let p2 = l2.probes_of(v, t).unwrap();
                assert forall|x: int| 0 <= x < p1.len() implies p1[x] == #[trigger] p2[x] by {
                    assert(p1[x] == crate::lsh::ints_to_code(i1[x], l1.n_projections as nat));
                    assert(p2[x] == crate::lsh::ints_to_code(i2[x], l2.n_projections as nat));
                }
                assert(p1.len() <= p2.len());
                assert(p1 =~= p2.take(p1.len() as int));
            },
            _ => {
                assert(false);
            },
        }
    }
    lemma_multi_union_monotone(l1, l2, v, l1.n_hash_tables as int);
}

/// Prefix probing lists give a contained multi-probe union, table by
/// table.
proof fn lemma_multi_union_monotone(l1: LSH, l2: LSH, v: Seq<Fx>, n: int)
    requires
        l1.hash_tables == l2.hash_tables,
        forall|t: int|
            0 <= t < n ==> (#[trigger] l1.probes_of(v, t)) is Some && l2.probes_of(v, t)
                is Some && l1.probes_of(v, t).unwrap().is_prefix_of(
                l2.probes_of(v, t).unwrap(),
            ),
    ensures
        l1.multi_union_upto(v, n) <= l2.multi_union_upto(v, n),
    decreases n,
{
    if n <= 0 {
    } else {
        lemma_multi_union_monotone(l1, l2, v, n - 1);
        let i1 = l1.probes_of(v, n - 1).unwrap().len() as int;
        let i2 = l2.probes_of(v, n - 1).unwrap().len() as int;
        lemma_probe_union_monotone(l1, l2, v, n - 1, i1);
        lemma_probe_union_grows(l2, v, n - 1, i1, i2);
        assert forall|id: u32|
            l1.multi_union_upto(v, n).contains(id) implies l2.multi_union_upto(
            v,
            n,
        ).contains(id) by {
            if l1.multi_union_upto(v, n - 1).contains(id) {
            } else {
                assert(l1.probe_union_upto(v, n - 1, i1).contains(id));
                assert(l2.probe_union_upto(v, n - 1, i1).contains(id));
                assert(l2.probe_union_upto(v, n - 1, i2).contains(id));
            }
        }
    }
}


/// Query results are a function of the configuration, hashers and
/// stored postings alone: two indexes with equal state answer every
/// query identically.  (A faithful save and restore of the state
/// therefore preserves every query result.)
pub proof fn lemma_equal_state_equal_queries(l1: LSH, l2: LSH, v: Seq<Fx>)
    requires
        l1.n_hash_tables == l2.n_hash_tables,
        l1.n_projections == l2.n_projections,
        l1.hashers@ == l2.hashers@,
        l1.hash_tables == l2.hash_tables,
        l1.multi_probe == l2.multi_probe,
        l1.multi_probe_budget == l2.multi_probe_budget,
    ensures
        l1.query_result(v) == l2.query_result(v),
{
    lemma_single_union_eq(l1, l2, v, l1.n_hash_tables as int);
    lemma_multi_union_eq(l1, l2, v, l1.n_hash_tables as int);
}

/// Equal states give equal single-probe unions.
proof fn lemma_single_union_eq(l1: LSH, l2: LSH, v: Seq<Fx>, n: int)
    requires
        l1.hashers@ == l2.hashers@,
        l1.hash_tables == l2.hash_tables,
    ensures
        l1.single_union_upto(v, n) == l2.single_union_upto(v, n),
    decreases n,
{
    if n <= 0 {
        assert(l1.single_union_upto(v, n) =~= l2.single_union_upto(v, n));
    } else {
        lemma_single_union_eq(l1, l2, v, n - 1);
    }
}

/// Equal states give equal probe lists and equal multi-probe unions.
proof fn lemma_multi_union_eq(l1: LSH, l2: LSH, v: Seq<Fx>, n: int)
    requires
        l1.hashers@ == l2.hashers@,
        l1.hash_tables == l2.hash_tables,
        l1.n_projections == l2.n_projections,
        l1.multi_probe_budget == l2.multi_probe_budget,
    ensures
        l1.multi_union_upto(v, n) == l2.multi_union_upto(v, n),
    decreases n,
{
    if n <= 0 {
        assert(l1.multi_union_upto(v, n) =~= l2.multi_union_upto(v, n));
    } else {
        lemma_multi_union_eq(l1, l2, v, n - 1);
        assert(l1.probes_of(v, n - 1) == l2.probes_of(v, n - 1));
        lemma_probe_union_eq(l1, l2, v, n - 1, l1.probes_of(v, n - 1).unwrap().len() as int);
        assert(l2.probes_of(v, n - 1).unwrap().len() == l1.probes_of(v, n - 1).unwrap().len());
    }
}

/// Equal states give equal probe unions.
proof fn lemma_probe_union_eq(l1: LSH, l2: LSH, v: Seq<Fx>, t: int, i: int)
    requires
        l1.hashers@ == l2.hashers@,
        l1.hash_tables == l2.hash_tables,
        l1.n_projections == l2.n_projections,
        l1.multi_probe_budget == l2.multi_probe_budget,
    ensures
        l1.probe_union_upto(v, t, i) == l2.probe_union_upto(v, t, i),
    decreases i,
{
    if i <= 0 {
        assert(l1.probe_union_upto(v, t, i) =~= l2.probe_union_upto(v, t, i));
    } else {
        lemma_probe_union_eq(l1, l2, v, t, i - 1);
        assert(l1.probes_of(v, t) == l2.probes_of(v, t));
    }
}


/// The first probing codeword of a probing-capable hasher is the query's
/// own codeword.
proof fn lemma_first_probe_is_query_code(l: LSH, v: Seq<Fx>, t: int)
    requires
        l.wf(),
        0 <= t < l.hashers@.len(),
        l.probes_of(v, t) is Some,
        !(l.hashers@[t] is MinHash),
    ensures
        l.probes_of(v, t).unwrap().len() >= 1,
        l.probes_of(v, t).unwrap()[0] == l.query_code_at(v, t),
{
    let probes = l.probes_of(v, t).unwrap();
    match l.hashers@[t] {
        Hasher::Srp(sh) => {
            let base = crate::hash::srp_code(sh.hyperplanes@, v);
            assert(probes[0] == base);
            assert(l.query_code_at(v, t) == base);
        },
        Hasher::L2(h) => {
            let ints = l2_probe_seq(h, v, l.multi_probe_budget as nat).unwrap();
            lemma_l2_probe_len(h, v, l.multi_probe_budget as nat);
            let code = crate::hash::l2_code(h, v);
            assert(ints[0] == Seq::new(code.len(), |i: int| code[i] as int));
            assert(probes[0] == crate::lsh::ints_to_code(ints[0], l.n_projections as nat));
            assert(probes[0] =~= code);
            assert(l.query_code_at(v, t) == code);
        },
        Hasher::Mips(h) => {
            let q2 = crate::hash::mips_query_vec(h, v);
            let inner = h.hasher;
            let ints = l2_probe_seq(inner, q2, l.multi_probe_budget as nat).unwrap();
            lemma_l2_probe_len(inner, q2, l.multi_probe_budget as nat);
            let code = crate::hash::l2_code(inner, q2);
            assert(ints[0] == Seq::new(code.len(), |i: int| code[i] as int));
            assert(probes[0] == crate::lsh::ints_to_code(ints[0], l.n_projections as nat));
            assert(probes[0] =~= code);
            assert(l.query_code_at(v, t) == code);
        },
        Hasher::MinHash(_) => {
            assert(false);
        },
    }
}

/// A prefix of a probe union is contained in a longer one.
proof fn lemma_probe_union_prefix(l: LSH, v: Seq<Fx>, t: int, i: int, n: int)
    requires
        0 <= i <= n,
    ensures
        l.probe_union_upto(v, t, i) <= l.probe_union_upto(v, t, n),
    decreases n,
{
    if n <= 0 || i == n {
    } else {
        lemma_probe_union_prefix(l, v, t, i, n - 1);
        assert forall|id: u32|
            l.probe_union_upto(v, t, i).contains(id) implies l.probe_union_upto(
            v,
            t,
            n,
        ).contains(id) by {
            assert(l.probe_union_upto(v, t, n - 1).contains(id));
        }
    }
}

/// A table's whole probe union is contained in the multi-probe union
/// over at least that many tables.
proof fn lemma_multi_union_contains(l: LSH, v: Seq<Fx>, t: int, n: int)
    requires
        0 <= t < n,
    ensures
        l.probe_union_upto(v, t, l.probes_of(v, t).unwrap().len() as int)
            <= l.multi_union_upto(v, n),
    decreases n,
{
    if t == n - 1 {
        assert forall|id: u32|
            l.probe_union_upto(v, t, l.probes_of(v, t).unwrap().len() as int).contains(
            id,
        ) implies l.multi_union_upto(v, n).contains(id) by {}
    } else {
        lemma_multi_union_contains(l, v, t, n - 1);
        assert forall|id: u32|
            l.probe_union_upto(v, t, l.probes_of(v, t).unwrap().len() as int).contains(
            id,
        ) implies l.multi_union_upto(v, n).contains(id) by {
            assert(l.multi_union_upto(v, n - 1).contains(id));
        }
    }
}

/// Self-retrieval under multi-probing: every probing list starts with
/// the query's own codeword, so a stored point's id is returned by its
/// own multi-probe query too (symmetric families, in-memory backend).
pub proof fn lemma_store_vec_self_retrieval_multi_probe(pre: LSH, post: LSH, v: Seq<Fx>, id: u32)
    requires
        pre.wf(),
        post.wf(),
        post.same_config(pre),
        pre.multi_probe,
        post.probes_ok(v),
        forall|i: int|
            0 <= i < pre.hashers@.len() ==> (#[trigger] pre.hashers@[i]).symmetric(),
        pre.put_codes_ok(v),
        match (pre.hash_tables, post.hash_tables) {
            (Backend::Mem(m0), Backend::Mem(m1)) => forall|t: int|
                0 <= t < pre.n_hash_tables ==> #[trigger] m1.bucket(t, pre.put_code_at(v, t))
                    == m0.bucket(t, pre.put_code_at(v, t)).insert(id),
            _ => false,
        },
    ensures
        post.query_result(v).contains(id),
{
    assert(!(post.hashers@[0] is MinHash)) by {
        if post.hashers@[0] is MinHash {
            assert(post.probes_of(v, 0) is Some);
        }
    }
    assert forall|t: int|
        0 <= t < post.n_hash_tables implies !((#[trigger] post.hashers@[t]) is MinHash) by {
        if post.hashers@[t] is MinHash {
            assert(post.probes_of(v, t) is Some);
        }
    }
    lemma_first_probe_is_query_code(post, v, 0);
    assert(post.hashers@[0].put_code(v) == post.hashers@[0].query_code(v));
    assert(post.query_code_at(v, 0) == pre.put_code_at(v, 0));
    assert(post.hash_tables.bucket(0, post.query_code_at(v, 0)).contains(id));
    let probes = post.probes_of(v, 0).unwrap();
    assert(post.probe_union_upto(v, 0, 0) =~= Set::<u32>::empty());
    assert(post.probe_union_upto(v, 0, 1) =~= post.hash_tables.bucket(0, probes[0]));
    lemma_probe_union_prefix(post, v, 0, 1, probes.len() as int);
    lemma_multi_union_contains(post, v, 0, post.n_hash_tables as int);
    assert(post.probe_union_upto(v, 0, probes.len() as int).contains(id));
}

} // verus!
