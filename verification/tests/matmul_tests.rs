use densearray::Array;
use densearray::matmul;
use densearray::try_matmul;

#[test]
fn test_matmul() {
    let a = Array::new(vec![1i64, 2, 3, 4, 5, 6, 7, 8, 9, 10], [5, 2]);
    let b = Array::new(vec![1i64, 2, 3, 4, 5, 6, 7, 8], [2, 4]);
    assert_eq!(
        matmul(a, b).data(),
        vec![11i64, 14, 17, 20, 23, 30, 37, 44, 35, 46, 57, 68, 47, 62, 77, 92, 59, 78, 97, 116]
    );
}

#[test]
fn matmul_rejects_mismatched_inner_dimensions() {
    let a = Array::new(vec![1i64, 2, 3, 4, 5, 6], [2, 3]);
    let b = Array::new(vec![1i64, 2, 3, 4], [2, 2]);
    assert!(try_matmul(a, b).is_none());
}

#[test]
fn try_matmul_accepts_matching_shapes() {
    let a = Array::new(vec![1i64, 2, 3, 4], [2, 2]);
    let b = Array::new(vec![5i64, 6, 7, 8], [2, 2]);
    let c = try_matmul(a, b).unwrap();
    assert_eq!(c.data(), vec![19i64, 22, 43, 50]);
    assert_eq!(c.shape(), &[2usize, 2][..]);
}

#[test]
fn matmul_with_empty_outer_axis_yields_empty_product() {
    let a = Array::<[usize; 2], i64>::try_new(vec![], [0, 2]).unwrap();
    let b = Array::new(vec![1i64, 2, 3, 4, 5, 6], [2, 3]);
    let c = try_matmul(a, b).unwrap();
    assert_eq!(c.data().len(), 0);
    assert_eq!(c.shape(), &[0usize, 3][..]);
}

#[test]
fn matmul_identity_leaves_matrix_unchanged() {
    let a = Array::new(vec![3i64, 4, 5, 6], [2, 2]);
    let id = Array::new(vec![1i64, 0, 0, 1], [2, 2]);
    assert_eq!(matmul(a, id).data(), vec![3i64, 4, 5, 6]);
}
