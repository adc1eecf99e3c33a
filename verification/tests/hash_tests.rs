use lsh_rs::fx::Fx;
use lsh_rs::hash::{MinHash, SignRandomProjections, L2};

fn fxi(n: i64) -> Fx {
    Fx::from_int(n)
}

fn fxr(num: i64, den: i64) -> Fx {
    Fx::from_ratio(num, den)
}

#[test]
fn test_l2() {
    let l2 = L2::new(5, fxr(22, 10), 7, 1);
    // two close vectors
    let h1 = l2
        .hash_vec_query(&[fxi(1), fxi(2), fxi(3), fxi(1), fxi(3)])
        .unwrap();
    let h2 = l2
        .hash_vec_query(&[fxr(11, 10), fxi(2), fxi(3), fxi(1), fxr(31, 10)])
        .unwrap();
    // a distant vector
    let h3 = l2
        .hash_vec_query(&[fxi(10), fxi(10), fxi(10), fxi(10), fxr(101, 10)])
        .unwrap();
    println!("close: {:?} distant: {:?}", (&h1, &h2), &h3);
    assert_eq!(h1, h2);
    assert_ne!(h1, h3);
}

#[test]
fn test_minhash() {
    let n_projections = 3;
    let h = MinHash::new(n_projections, 5, 0);
    let hash = h.hash_vec_query(&[fxi(1), fxi(0), fxi(1), fxi(0), fxi(1)]);
    assert_eq!(hash.len(), n_projections)
}

#[test]
fn test_minhash_known_permutation() {
    // With the permutation written out, the codeword is the least
    // positive product.
    let h = MinHash {
        pi: vec![vec![3, 2, 4, 1]],
        dim: 4,
    };
    let code = h.hash_vec_query(&[fxi(1), fxi(0), fxi(1), fxi(0)]);
    assert_eq!(code, vec![3]);
    // No positive product: the dimension is the sentinel.
    let code = h.hash_vec_query(&[fxi(0), fxi(0), fxi(0), fxi(0)]);
    assert_eq!(code, vec![4]);
}

#[test]
fn test_srp_scale_invariance() {
    // Scaling a vector by a positive integer keeps every sign, so the
    // codeword is unchanged.
    let h = SignRandomProjections::new(9, 3, 7);
    let v = [fxi(2), fxi(-3), fxi(4)];
    let w = [fxi(4), fxi(-6), fxi(8)];
    assert_eq!(h.hash_vec_query(&v), h.hash_vec_query(&w));
}

#[test]
fn test_srp_code_is_bits() {
    let h = SignRandomProjections::new(12, 4, 3);
    let code = h.hash_vec_query(&[fxi(1), fxi(-2), fxi(3), fxr(1, 2)]);
    assert_eq!(code.len(), 12);
    assert!(code.iter().all(|&b| b == 0 || b == 1));
}

#[test]
fn test_mips_requires_fit() {
    let mut m = lsh_rs::hash::MIPS::new(3, fxi(4), fxr(1, 2), 1, 5, 1);
    // Before `fit` the hasher reports itself unready for insertions.
    assert_eq!(m.m_max.raw, 0);
    m.fit(&vec![vec![fxi(3), fxi(4), fxi(0)], vec![fxi(1), fxi(0), fxi(0)]]);
    // The largest norm of the fitted data is five.
    assert_eq!(m.m_max.raw, 5 * 65536);
    let code = m.hash_vec_put(&[fxi(1), fxi(1), fxi(1)]).unwrap();
    assert_eq!(code.len(), 5);
    let qcode = m.hash_vec_query(&[fxi(1), fxi(1), fxi(1)]).unwrap();
    assert_eq!(qcode.len(), 5);
}
