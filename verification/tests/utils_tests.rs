use lsh_rs::fx::Fx;
use lsh_rs::utils::{all_eq, dot_prod};

fn fxi(n: i64) -> Fx {
    Fx::from_int(n)
}

fn fxr(num: i64, den: i64) -> Fx {
    Fx::from_ratio(num, den)
}

#[test]
fn test_all_eq() {
    assert!(all_eq(&[fxi(1), fxi(2)], &[fxi(1), fxi(2)]));
    assert!(all_eq(&[fxi(1), fxi(2)], &[fxi(1), fxi(2)]));
    assert!(!all_eq(&[fxr(11, 10), fxi(-1)], &[fxi(1), fxi(2)]));
}

#[test]
fn utils_test_all_eq() {
    assert!(all_eq(&[fxi(1), fxi(2)], &[fxi(1), fxi(2)]));
    assert!(all_eq(&[fxi(1), fxi(2)], &[fxi(1), fxi(2)]));
    assert!(!all_eq(&[fxr(11, 10), fxi(-1)], &[fxi(1), fxi(2)]));
}

#[test]
fn test_dot() {
    let a = dot_prod(&[1, 2, 3], &[1, 2, 3]);
    assert_eq!(a, 14);
}

#[test]
fn test_fx_ratio_exact() {
    // 22/10 rounds down to the nearest 1/65536.
    assert_eq!(fxr(22, 10).raw, 144179);
    assert_eq!(fxi(3).raw, 3 * 65536);
    assert_eq!(fxr(1, 2).raw, 32768);
    assert_eq!(fxr(-1, 2).raw, -32768);
}

#[test]
fn test_l2_norm_exact() {
    // A 3-4-5 triangle stays exact in fixed point.
    let v = [fxi(3), fxi(4)];
    let n = lsh_rs::dist::l2_norm(&v);
    assert_eq!(n.raw, 5 * 65536);
}

#[test]
fn test_inner_prod_exact() {
    let a = [fxi(1), fxi(-1)];
    let b = [fxi(2), fxi(3)];
    let p = lsh_rs::dist::inner_prod(&a, &b).unwrap();
    assert_eq!(p.raw, -1 * 65536);
}

#[test]
fn test_cosine_sim_parallel() {
    let a = [fxi(1), fxi(0)];
    let b = [fxi(2), fxi(0)];
    let c = lsh_rs::dist::cosine_sim(&a, &b).unwrap();
    assert_eq!(c.raw, 65536);
}

#[test]
fn test_error_messages() {
    assert_eq!(
        lsh_rs::error::Error::NotFound.message(),
        "vector not found"
    );
    assert_eq!(
        lsh_rs::error::Error::ShapeMismatch.message(),
        "data point is not valid, are the dimensions correct?"
    );
}
