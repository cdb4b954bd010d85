use nn::tensor::{broadcast_row, numel, transpose_2d};

#[test]
fn transpose_round_trip() {
    let a = vec![1.0f32, 2.0, 3.0, 4.0, 5.0, 6.0];
    let (b, bs) = transpose_2d(&a, &[2, 3]);
    let (c, cs) = transpose_2d(&b, &bs);
    assert_eq!(cs, &[2, 3]);
    assert_eq!(c, a);
}

#[test]
fn transpose_moves_each_cell() {
    let a = vec![1, 2, 3, 4, 5, 6];
    let (b, bs) = transpose_2d(&a, &[2, 3]);
    assert_eq!(bs, vec![3, 2]);
    assert_eq!(b, vec![1, 4, 2, 5, 3, 6]);
}

#[test]
fn transpose_of_empty_matrix() {
    let a: Vec<u8> = Vec::new();
    let (b, bs) = transpose_2d(&a, &[0, 4]);
    assert_eq!(bs, vec![4, 0]);
    assert!(b.is_empty());
}

#[test]
fn numel_is_the_product_of_dims() {
    assert_eq!(numel(&[2, 3, 4]), 24);
    assert_eq!(numel(&[]), 1);
    assert_eq!(numel(&[5, 0, 7]), 0);
}

#[test]
fn broadcast_row_repeats_a_bias_row() {
    let out = broadcast_row(&[1, 2, 3], &[3], &[2, 3]);
    assert_eq!(out, vec![1, 2, 3, 1, 2, 3]);
    let out2 = broadcast_row(&[7, 8], &[1, 2], &[3, 2]);
    assert_eq!(out2, vec![7, 8, 7, 8, 7, 8]);
}

#[test]
fn broadcast_row_fills_from_a_scalar() {
    assert_eq!(broadcast_row(&[9], &[], &[2, 2]), vec![9, 9, 9, 9]);
    assert_eq!(broadcast_row(&[4], &[1], &[1, 3]), vec![4, 4, 4]);
}

#[test]
fn checked_numel_reports_overflow() {
    assert_eq!(nn::tensor::checked_numel(&[3, 4]), Some(12));
    assert_eq!(nn::tensor::checked_numel(&[]), Some(1));
    assert_eq!(nn::tensor::checked_numel(&[usize::MAX, 2]), None);
    // A later zero does not excuse an overflowing prefix.
    assert_eq!(nn::tensor::checked_numel(&[usize::MAX, 2, 0]), None);
    assert_eq!(nn::tensor::checked_numel(&[0, usize::MAX, 2]), Some(0));
}
