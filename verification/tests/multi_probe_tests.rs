use lsh_rs::fx::Fx;
use lsh_rs::multi_probe::{combs_limited, step_wise_probing, PerturbState};

fn fxi(n: i64) -> Fx {
    Fx::from_int(n)
}

fn fxr(num: i64, den: i64) -> Fx {
    Fx::from_ratio(num, den)
}

#[test]
fn test_step_wise_perturb() {
    // The first two weight-two perturbation sets over four positions
    // with both shift directions.
    let a = combs_limited(0, 8, 2, 2);
    assert_eq!(a, vec![vec![0, 1], vec![0, 2]]);
}

#[test]
fn test_step_wise_probe() {
    let a = step_wise_probing(4, 20, true);
    assert_eq!(a.len(), 20);
    assert_eq!(a[0], vec![1, 0, 0, 0]);
    assert_eq!(a[a.len() - 1], vec![0, 1, -1, 0]);
}

#[test]
fn test_combs_lexicographic() {
    let a = combs_limited(0, 4, 2, 10);
    assert_eq!(
        a,
        vec![
            vec![0, 1],
            vec![0, 2],
            vec![0, 3],
            vec![1, 2],
            vec![1, 3],
            vec![2, 3],
        ]
    );
}

#[test]
fn test_perturbstate() {
    let distances = vec![
        fxi(1),
        fxr(1, 10),
        fxi(3),
        fxi(2),
        fxi(9),
        fxi(4),
        fxr(8, 10),
        fxi(5),
    ];
    // argsort of the distances
    let z = vec![1, 6, 0, 3, 2, 5, 7, 4];
    let switchpoint = 4;
    let a0 = PerturbState::new(z, distances, switchpoint, vec![0, 0, 0, 0]);
    // initial selection is the first sorted position
    //   distance/score:    0.1
    //   index:             1
    //   delta:             -1
    assert_eq!(a0.gen_hash(), vec![0, -1, 0, 0]);
    assert_eq!(a0.score(), fxr(1, 10).raw as i128);
    assert_eq!(a0.selection, vec![0]);

    // after the expand operation the selection is [0, 1]
    //   distance/score:    0.1 + 0.8
    //   indexes:           [1, 2]
    //   deltas:            [-1, 1]
    let mut ae = a0.duplicate();
    ae.expand().unwrap();
    assert_eq!(ae.gen_hash(), vec![0, -1, 1, 0]);
    assert_eq!(ae.score(), (fxr(1, 10).raw + fxr(8, 10).raw) as i128);
    assert_eq!(ae.selection, vec![0, 1]);

    // after the shift operation the selection is [1]
    //   distance/score:    0.8
    //   index:             2
    //   delta:             1
    let mut a_s = a0.duplicate();
    a_s.shift().unwrap();
    assert_eq!(a_s.gen_hash(), vec![0, 0, 1, 0]);
    assert_eq!(a_s.score(), fxr(8, 10).raw as i128);
    assert_eq!(a_s.selection, vec![1]);
}

#[test]
fn test_query_directed_probe() {
    // The probing codewords start with the query's own codeword and
    // number one more than the budget.
    let l2 = lsh_rs::hash::L2::new(4, fxi(4), 3, 1);
    let q = [fxi(1), fxi(2), fxi(3), fxi(1)];
    let hashes = l2.query_directed_probe(&q, 4).unwrap();
    assert_eq!(hashes.len(), 5);
    assert_eq!(hashes[0], l2.hash_vec_query(&q).unwrap());
}

#[test]
fn test_argsort_stable() {
    let d = vec![fxi(2), fxr(1, 10), fxi(2), fxi(1)];
    let z = lsh_rs::multi_probe::argsort(&d);
    assert_eq!(z, vec![1, 3, 0, 2]);
}

#[test]
fn test_distance_to_bound_within_slot() {
    let l2 = lsh_rs::hash::L2::new(4, fxi(4), 3, 1);
    let q = [fxi(1), fxi(2), fxi(3), fxi(1)];
    let (mn, mp) = l2.distance_to_bound(&q).unwrap();
    assert_eq!(mn.len(), 3);
    assert_eq!(mp.len(), 3);
    for i in 0..3 {
        assert!(0 <= mn[i].raw && mn[i].raw <= l2.r.raw);
        assert!(0 <= mp[i].raw && mp[i].raw <= l2.r.raw);
    }
}
