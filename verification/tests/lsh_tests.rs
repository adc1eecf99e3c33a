use lsh_rs::fx::Fx;
use lsh_rs::lsh::LSH;

fn fxi(n: i64) -> Fx {
    Fx::from_int(n)
}

fn fxr(num: i64, den: i64) -> Fx {
    Fx::from_ratio(num, den)
}

#[test]
fn test_hash_table() {
    let mut lsh = LSH::new(5, 10, 3).seed(1).srp().unwrap();
    let v1 = &[fxi(2), fxi(3), fxi(4)];
    let v2 = &[fxi(-1), fxi(-1), fxi(1)];
    lsh.store_vec(v1).unwrap();
    lsh.store_vec(v2).unwrap();
    assert!(lsh.query_bucket_ids(v2).unwrap().len() > 0);

    let bucket_len_before = lsh.query_bucket(v1).unwrap().len();
    lsh.delete_vec(v1).unwrap();
    let bucket_len_after = lsh.query_bucket(v1).unwrap().len();
    assert!(bucket_len_before > bucket_len_after);
}

#[test]
fn lsh_test_hash_table() {
    let mut lsh = LSH::new(5, 10, 3).seed(1).srp().unwrap();
    let v1 = &[fxi(2), fxi(3), fxi(4)];
    let v2 = &[fxi(-1), fxi(-1), fxi(1)];
    lsh.store_vec(v1).unwrap();
    lsh.store_vec(v2).unwrap();
    assert!(lsh.query_bucket_ids(v2).unwrap().len() > 0);

    let bucket_len_before = lsh.query_bucket(v1).unwrap().len();
    lsh.delete_vec(v1).unwrap();
    let bucket_len_after = lsh.query_bucket(v1).unwrap().len();
    assert!(bucket_len_before > bucket_len_after);
}

#[test]
fn test_index_only() {
    // Only ids are stored: resolving a bucket to points must fail.
    let mut lsh = LSH::new(5, 9, 3).seed(1).only_index().srp().unwrap();
    let v1 = &[fxi(2), fxi(3), fxi(4)];
    let v2 = &[fxi(-1), fxi(-1), fxi(1)];
    lsh.store_vec(v1).unwrap();
    lsh.store_vec(v2).unwrap();
    assert!(lsh.query_bucket_ids(v2).unwrap().len() > 0);
    assert!(lsh.query_bucket(v2).is_err());
}

#[test]
fn lsh_test_index_only() {
    let mut lsh = LSH::new(5, 9, 3).seed(1).only_index().srp().unwrap();
    let v1 = &[fxi(2), fxi(3), fxi(4)];
    lsh.store_vec(v1).unwrap();
    assert!(lsh.query_bucket_ids(v1).unwrap().len() > 0);
    assert!(lsh.query_bucket(v1).is_err());
}

#[test]
fn test_test_hash_table() {
    let mut lsh = LSH::new(5, 10, 3).seed(1).srp().unwrap();
    let v1 = &[fxi(2), fxi(3), fxi(4)];
    let v2 = &[fxi(-1), fxi(-1), fxi(1)];
    lsh.store_vec(v1).unwrap();
    lsh.store_vec(v2).unwrap();
    assert!(lsh.query_bucket_ids(v2).unwrap().len() > 0);

    let bucket_len_before = lsh.query_bucket(v1).unwrap().len();
    lsh.delete_vec(v1).unwrap();
    let bucket_len_after = lsh.query_bucket(v1).unwrap().len();
    assert!(bucket_len_before > bucket_len_after);
}

#[test]
fn test_test_index_only() {
    let mut lsh = LSH::new(5, 9, 3).seed(1).only_index().srp().unwrap();
    let v1 = &[fxi(2), fxi(3), fxi(4)];
    lsh.store_vec(v1).unwrap();
    assert!(lsh.query_bucket_ids(v1).unwrap().len() > 0);
    assert!(lsh.query_bucket(v1).is_err());
}

#[test]
fn test_self_retrieval_ids() {
    // Every stored point's id comes back from its own query.
    let mut lsh = LSH::new(6, 4, 3).seed(3).srp().unwrap();
    let vs = vec![
        vec![fxi(2), fxi(3), fxi(4)],
        vec![fxi(-1), fxi(-1), fxi(1)],
        vec![fxr(1, 2), fxi(0), fxi(7)],
    ];
    let ids = lsh.store_vecs(&vs).unwrap();
    assert_eq!(ids, vec![0, 1, 2]);
    for (i, v) in vs.iter().enumerate() {
        let found = lsh.query_bucket_ids(v.as_slice()).unwrap();
        assert!(found.contains(&(i as u32)));
    }
}

#[test]
fn test_store_vec_shape_mismatch() {
    let mut lsh = LSH::new(5, 10, 3).seed(1).srp().unwrap();
    let bad = &[fxi(2), fxi(3)];
    assert_eq!(
        lsh.store_vec(bad).unwrap_err(),
        lsh_rs::error::Error::ShapeMismatch
    );
}

#[test]
fn test_update_by_idx_moves_id() {
    let mut lsh = LSH::new(5, 10, 3).seed(1).srp().unwrap();
    let v1 = &[fxi(2), fxi(3), fxi(4)];
    let id = lsh.store_vec(v1).unwrap();
    let v2 = &[fxi(-2), fxi(-3), fxi(-4)];
    lsh.update_by_idx(id, v2, v1).unwrap();
    let found = lsh.query_bucket_ids(v2).unwrap();
    assert!(found.contains(&id));
    let old_found = lsh.query_bucket_ids(v1).unwrap();
    assert!(!old_found.contains(&id));
}

#[test]
fn test_minhash_engine() {
    let mut lsh = LSH::new(4, 3, 5).seed(11).minhash().unwrap();
    let v = &[fxi(1), fxi(0), fxi(1), fxi(0), fxi(1)];
    let id = lsh.store_vec(v).unwrap();
    assert!(lsh.query_bucket_ids(v).unwrap().contains(&id));
}

#[test]
fn test_multi_probe_l2_superset() {
    // A query-directed multi-probe query returns at least the
    // single-probe ids, and budget zero returns exactly them.
    let vs = vec![
        vec![fxi(1), fxi(2), fxi(3), fxi(1)],
        vec![fxi(4), fxi(0), fxi(-2), fxi(2)],
        vec![fxr(1, 2), fxi(1), fxi(0), fxi(0)],
    ];
    let mut base = LSH::new(3, 4, 4).seed(5).l2(fxi(4)).unwrap();
    base.store_vecs(&vs).unwrap();
    let q = &[fxi(1), fxi(2), fxi(3), fxi(1)];
    let single = base.query_bucket_ids(q).unwrap();

    let mut zero = LSH::new(3, 4, 4).seed(5).multi_probe(0).l2(fxi(4)).unwrap();
    zero.store_vecs(&vs).unwrap();
    let mut z = zero.query_bucket_ids(q).unwrap();
    let mut s = single.clone();
    z.sort();
    s.sort();
    assert_eq!(z, s);

    let mut probing = LSH::new(3, 4, 4).seed(5).multi_probe(6).l2(fxi(4)).unwrap();
    probing.store_vecs(&vs).unwrap();
    let probed = probing.query_bucket_ids(q).unwrap();
    for id in &s {
        assert!(probed.contains(id));
    }
}

#[test]
fn test_query_directed_bounds() {
    // When the shift and expand operations run out of positions the
    // query reports the exhausted budget.
    let mut lsh = LSH::new(1, 1, 1).seed(2).multi_probe(1000).l2(fxi(4)).unwrap();
    lsh.store_vec(&[fxi(1)]).unwrap();
    assert!(lsh.query_bucket_ids(&[fxi(1)]).is_err());
}

#[test]
fn test_srp_multi_probe_self_retrieval() {
    let mut lsh = LSH::new(5, 3, 3).seed(1).multi_probe(4).srp().unwrap();
    let v = &[fxi(2), fxi(3), fxi(4)];
    let id = lsh.store_vec(v).unwrap();
    // The probing list starts with the unperturbed codeword, so the
    // stored id is always found.
    assert!(lsh.query_bucket_ids(v).unwrap().contains(&id));
}

#[test]
fn test_srp_multi_probe_budget_zero() {
    // With budget zero the step-wise multi-probe union equals the
    // single-probe result.
    let vs = vec![
        vec![fxi(2), fxi(3), fxi(4)],
        vec![fxi(-1), fxi(-1), fxi(1)],
    ];
    let mut base = LSH::new(5, 3, 3).seed(7).srp().unwrap();
    base.store_vecs(&vs).unwrap();
    let q = &[fxi(2), fxi(3), fxi(4)];
    let mut single = base.query_bucket_ids(q).unwrap();

    let mut zero = LSH::new(5, 3, 3).seed(7).multi_probe(0).srp().unwrap();
    zero.store_vecs(&vs).unwrap();
    let mut z = zero.query_bucket_ids(q).unwrap();
    single.sort();
    z.sort();
    assert_eq!(z, single);
}

#[test]
fn test_batch_query() {
    let mut lsh = LSH::new(5, 4, 3).seed(9).srp().unwrap();
    let vs = vec![
        vec![fxi(2), fxi(3), fxi(4)],
        vec![fxi(-1), fxi(-1), fxi(1)],
    ];
    lsh.store_vecs(&vs).unwrap();
    let rs = lsh.query_bucket_ids_batch(&vs).unwrap();
    assert_eq!(rs.len(), 2);
    assert!(rs[0].contains(&0));
    assert!(rs[1].contains(&1));
}

#[test]
fn test_describe() {
    let mut lsh = LSH::new(5, 10, 3).seed(1).srp().unwrap();
    lsh.store_vec(&[fxi(2), fxi(3), fxi(4)]).unwrap();
    let d = lsh.describe().unwrap();
    assert!(d.contains("No. of tables: 10"));
}

#[test]
fn test_mips_fit_and_store() {
    let mut lsh = LSH::new(5, 2, 3).seed(4).mips(fxi(4), fxr(1, 2), 2).unwrap();
    let vs = vec![
        vec![fxi(3), fxi(4), fxi(0)],
        vec![fxi(1), fxi(1), fxi(1)],
    ];
    lsh.fit(&vs).unwrap();
    let ids = lsh.store_vecs(&vs).unwrap();
    assert_eq!(ids, vec![0, 1]);
    // The MIPS query transform differs from the put transform, so the
    // query must at least succeed.
    lsh.query_bucket_ids(&[fxi(3), fxi(4), fxi(0)]).unwrap();
}
