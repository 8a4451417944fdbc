use array_recipes::sets::{
    array_difference, array_intersection, array_union, intersect1d_ufunc, unique_elements,
    unique_ufunc,
};

#[test]
fn test_unique_elements() {
    let arr = vec![vec![3, 1, 3], vec![2, 1, 2]];
    let uniques = unique_elements(&arr);
    assert_eq!(uniques, vec![1, 2, 3]);
}

#[test]
fn main_test_set_operations() {
    let a = vec![1, 2, 3, 4];
    let b = vec![3, 4, 5, 6];

    assert_eq!(array_intersection(&a, &b), vec![3, 4]);
    assert_eq!(array_union(&a, &b), vec![1, 2, 3, 4, 5, 6]);
    assert_eq!(array_difference(&a, &b), vec![1, 2]);
}

#[test]
fn set_operations_on_demo_data() {
    let matrix_a = vec![vec![5, 2, 8, 2], vec![1, 5, 9, 1]];
    let vec_b = vec![2, 5, 12, 15];
    let uniques = unique_elements(&matrix_a);
    assert_eq!(uniques, vec![1, 2, 5, 8, 9]);
    assert_eq!(array_intersection(&uniques, &vec_b), vec![2, 5]);
    assert_eq!(array_union(&uniques, &vec_b), vec![1, 2, 5, 8, 9, 12, 15]);
    assert_eq!(array_difference(&uniques, &vec_b), vec![1, 8, 9]);
}

#[test]
fn set_operations_empty_and_negative() {
    let empty: Vec<i64> = vec![];
    assert_eq!(unique_ufunc(&empty), empty);
    assert_eq!(unique_elements(&vec![]), empty);
    assert_eq!(unique_elements(&vec![vec![], vec![]]), empty);
    let a = vec![-3, 7, -3, i64::MIN, i64::MAX, 0];
    assert_eq!(unique_ufunc(&a), vec![i64::MIN, -3, 0, 7, i64::MAX]);
    assert_eq!(array_union(&a, &empty), vec![i64::MIN, -3, 0, 7, i64::MAX]);
    assert_eq!(array_intersection(&a, &empty), empty);
    assert_eq!(intersect1d_ufunc(&empty, &a), empty);
    assert_eq!(array_difference(&a, &vec![0, 7, 100]), vec![i64::MIN, -3, i64::MAX]);
}

#[test]
fn unique_is_idempotent_and_intersections_agree() {
    let a = vec![9, 1, 4, 4, 1, 0, 9];
    let b = vec![4, 4, 8, 0, 3];
    let once = unique_ufunc(&a);
    assert_eq!(unique_ufunc(&once), once);
    assert_eq!(intersect1d_ufunc(&a, &b), array_intersection(&a, &b));
    assert_eq!(intersect1d_ufunc(&a, &b), vec![0, 4]);
}

#[test]
fn union_intersection_difference_sizes() {
    let a = vec![1, 2, 2, 3, 5, 8, 13];
    let b = vec![2, 3, 4, 4, 5, 6];
    let ua = unique_ufunc(&a).len();
    let ub = unique_ufunc(&b).len();
    let uni = array_union(&a, &b).len();
    let inter = array_intersection(&a, &b).len();
    let diff = array_difference(&a, &b).len();
    assert_eq!((ua, ub, uni, inter, diff), (6, 5, 8, 3, 3));
    assert_eq!(uni + inter, ua + ub);
    assert_eq!(diff + inter, ua);
}
