use densearray::Array;
use densearray::Dimension;

#[test]
fn test_divassign() {
    let mut array = Array::new(vec![2i64, 4, 6, 8, 10, 12], [3, 2]);
    array.div_scalar(2);
    assert_eq!(array.data(), vec![1i64, 2, 3, 4, 5, 6]);
}

#[test]
fn test_mul() {
    let a = Array::new(vec![1i64, 2, 3, 4, 5, 6, 7, 8], [2, 4]);
    let b = Array::new(vec![2i64, 2, 2, 2, 2, 2, 2, 2], [2, 4]);
    assert_eq!(a.mul_elementwise(&b).data(), vec![2i64, 4, 6, 8, 10, 12, 14, 16]);
}

#[test]
fn test_sum_interior() {
    let a = Array::new(
        vec![1i64, 2, 3, 1, 2, 3, 1, 2, 3, 1, 3, 5, 1, 3, 5, 1, 3, 5],
        [2, 3, 3],
    );
    assert_eq!(a.sum_interior().data(), vec![18i64, 27]);
}

#[test]
fn offsets_follow_row_major_strides_rank3() {
    let mut vals: Vec<i64> = Vec::new();
    for x in 0..18 {
        vals.push(x);
    }
    let a = Array::new(vals, [2, 3, 3]);
    for i in 0..2usize {
        for j in 0..3usize {
            for k in 0..3usize {
                let expected = (i * 9 + j * 3 + k) as i64;
                assert_eq!(a.get(&[i, j, k]), expected);
            }
        }
    }
}

#[test]
fn offsets_follow_row_major_strides_rank2_and_rank1() {
    let a = Array::new(vec![0i64, 1, 2, 3, 4, 5], [2, 3]);
    for i in 0..2usize {
        for j in 0..3usize {
            assert_eq!(a.get(&[i, j]), (i * 3 + j) as i64);
        }
    }
    let b = Array::new(vec![0i64, 1, 2, 3], [4]);
    for i in 0..4usize {
        assert_eq!(b.get(&[i]), i as i64);
    }
}

#[test]
fn dimension_size_and_offset() {
    let d3: [usize; 3] = [2, 3, 3];
    assert_eq!(d3.size(), 18);
    assert_eq!(d3.offset(&[1, 2, 2]), 17);
    let d2: [usize; 2] = [4, 5];
    assert_eq!(d2.size(), 20);
    assert_eq!(d2.offset(&[3, 2]), 17);
    let d1: [usize; 1] = [7];
    assert_eq!(d1.size(), 7);
    assert_eq!(d1.offset(&[4]), 4);
}

#[test]
fn construction_rejects_length_mismatch() {
    let r = Array::<[usize; 2], i64>::try_new(vec![1, 2, 3], [2, 2]);
    assert!(r.is_none());
    let ok = Array::<[usize; 2], i64>::try_new(vec![1, 2, 3, 4], [2, 2]);
    assert!(ok.is_some());
}

#[test]
fn from_shape_fills_with_zeros() {
    let a = Array::<[usize; 2], i64>::from_shape([2, 3]);
    assert_eq!(a.data(), vec![0i64; 6]);
    assert_eq!(a.shape(), &[2usize, 3][..]);
}

#[test]
fn out_of_range_coordinate_is_rejected() {
    let a = Array::new(vec![1i64, 2, 3, 4, 5, 6], [2, 3]);
    assert!(a.try_get(&[0, 0]).is_some());
    assert!(a.try_get(&[2, 0]).is_none());
    assert!(a.try_get(&[0, 3]).is_none());
    assert!(a.try_get(&[1, 2]).is_some());
    let mut b = a;
    assert!(!b.try_set(&[2, 0], 9));
    assert_eq!(b.data(), vec![1i64, 2, 3, 4, 5, 6]);
    assert!(b.try_set(&[1, 0], 9));
    assert_eq!(b.data(), vec![1i64, 2, 3, 9, 5, 6]);
}

#[test]
fn repeated_reads_return_the_same_value() {
    let a = Array::new(vec![7i64, 8, 9, 10], [2, 2]);
    let first = a.get(&[1, 0]);
    let second = a.get(&[1, 0]);
    let third = a.get(&[1, 0]);
    assert_eq!(first, 9);
    assert_eq!(second, 9);
    assert_eq!(third, 9);
}

#[test]
fn zero_length_axis_rejects_all_indexing() {
    let a = Array::<[usize; 2], i64>::try_new(vec![], [0, 4]).unwrap();
    assert!(a.try_get(&[0, 0]).is_none());
    assert_eq!(a.data().len(), 0);
}

#[test]
fn try_new_handles_oversized_shapes() {
    let r = Array::<[usize; 2], i64>::try_new(vec![1, 2], [usize::MAX, 2]);
    assert!(r.is_none());
}

#[test]
fn sum_interior_of_empty_outer_axis_is_empty() {
    let a = Array::<[usize; 2], i64>::try_new(vec![], [0, 3]).unwrap();
    assert_eq!(a.sum_interior().data().len(), 0);
}

#[test]
fn sum_interior_rank1_is_identity() {
    let a = Array::new(vec![4i64, 5, 6], [3]);
    assert_eq!(a.sum_interior().data(), vec![4i64, 5, 6]);
}

#[test]
fn sum_interior_rank2_sums_rows() {
    let a = Array::new(vec![1i64, 2, 3, 4, 5, 6], [2, 3]);
    assert_eq!(a.sum_interior().data(), vec![6i64, 15]);
    assert_eq!(a.sum_interior().shape(), &[2usize][..]);
}

#[test]
fn division_truncates_toward_zero() {
    let mut a = Array::new(vec![-7i64, 7, -8, 8], [2, 2]);
    a.div_scalar(2);
    assert_eq!(a.data(), vec![-3i64, 3, -4, 4]);
    let mut b = Array::new(vec![7i64, -7], [2]);
    b.div_scalar(-2);
    assert_eq!(b.data(), vec![-3i64, 3]);
}

#[test]
fn i32_scalars_are_supported() {
    let a = Array::new(vec![1i32, 2, 3, 4], [2, 2]);
    let b = Array::new(vec![5i32, 6, 7, 8], [2, 2]);
    assert_eq!(a.mul_elementwise(&b).data(), vec![5i32, 12, 21, 32]);
}

#[test]
fn set_then_get_returns_the_written_value() {
    let mut a = Array::<[usize; 3], i64>::from_shape([2, 2, 2]);
    a.set(&[1, 0, 1], 42);
    assert_eq!(a.get(&[1, 0, 1]), 42);
    assert_eq!(a.data()[5], 42);
}
