use array_recipes::number_theory::{gcd_lcm_representable, gcd_lcm_ufuncs};
use array_recipes::sets::{intersect1d_ufunc, unique_ufunc};

#[test]
fn test_gcd_lcm() {
    let a = vec![12, 15];
    let b = vec![18, 20];
    let (gcd_res, lcm_res) = gcd_lcm_ufuncs(&a, &b);

    assert_eq!(gcd_res, vec![6, 5]);
    assert_eq!(lcm_res, vec![36, 60]);
}

#[test]
fn ufuncs_tests_test_set_operations() {
    let a = vec![4, 2, 2, 1, 4];
    let b = vec![2, 3, 4];

    assert_eq!(unique_ufunc(&a), vec![1, 2, 4]);
    assert_eq!(intersect1d_ufunc(&a, &b), vec![2, 4]);
}

#[test]
fn gcd_lcm_signs_and_zeros() {
    let a = vec![-12, 0, 0, 7, -9, i64::MAX];
    let b = vec![18, 0, -5, 3, -6, 1];
    let (g, l) = gcd_lcm_ufuncs(&a, &b);
    assert_eq!(g, vec![6, 0, 5, 1, 3, 1]);
    assert_eq!(l, vec![36, 0, 0, 21, 18, i64::MAX]);
}

#[test]
fn gcd_lcm_uses_common_prefix() {
    let (g, l) = gcd_lcm_ufuncs(&vec![8, 9, 10], &vec![12]);
    assert_eq!(g, vec![4]);
    assert_eq!(l, vec![24]);
    let (g, l) = gcd_lcm_ufuncs(&vec![], &vec![1, 2]);
    assert!(g.is_empty() && l.is_empty());
}

#[test]
fn gcd_times_lcm_is_product() {
    let a = vec![10, -8, 21, 1];
    let b = vec![4, 9, -14, 1];
    let (g, l) = gcd_lcm_ufuncs(&a, &b);
    assert_eq!(g, vec![2, 1, 7, 1]);
    assert_eq!(l, vec![20, 72, 42, 1]);
    for i in 0..a.len() {
        assert_eq!(g[i] * l[i], (a[i] * b[i]).abs());
        assert_eq!(a[i] % g[i], 0);
        assert_eq!(b[i] % g[i], 0);
    }
}

#[test]
fn lcm_is_a_common_multiple() {
    let a = vec![4, -6, 9, 35];
    let b = vec![6, 10, -12, 14];
    let (_, l) = gcd_lcm_ufuncs(&a, &b);
    assert_eq!(l, vec![12, 30, 36, 70]);
    for i in 0..a.len() {
        assert_eq!(l[i] % a[i], 0);
        assert_eq!(l[i] % b[i], 0);
        // every common multiple found by search is a multiple of the lcm
        for m in 1..=200i64 {
            if m % a[i] == 0 && m % b[i] == 0 {
                assert_eq!(m % l[i], 0);
            }
        }
    }
}

#[test]
fn representable_pairs() {
    assert!(!gcd_lcm_representable(i64::MIN, 0));
    assert!(!gcd_lcm_representable(0, i64::MIN));
    assert!(!gcd_lcm_representable(i64::MIN, i64::MIN));
    assert!(!gcd_lcm_representable(i64::MIN, 1));
    assert!(!gcd_lcm_representable(i64::MAX, 2));
    assert!(gcd_lcm_representable(i64::MAX, 7));
    assert!(gcd_lcm_representable(i64::MIN + 1, -1));
    assert!(gcd_lcm_representable(0, 0));
    assert!(gcd_lcm_representable(i64::MAX, 0));
    assert!(gcd_lcm_representable(12, 18));
    let (g, l) = gcd_lcm_ufuncs(&vec![i64::MAX, i64::MIN + 1], &vec![7, -1]);
    assert_eq!(g, vec![7, 1]);
    assert_eq!(l, vec![i64::MAX, i64::MAX]);
}
