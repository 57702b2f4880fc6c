use hnu_algo::algorithms::matrix::CSCMatrix;
use hnu_algo::algorithms::pagerank::PagerankError;

#[test]
fn test_csc_matrix() {
    let mut matrix = CSCMatrix::new(3, 2);
    matrix.set(0, 0, 1);
    matrix.set(0, 1, 2);
    matrix.set(1, 0, 4);
    matrix.set(1, 1, 5);
    matrix.set(2, 0, 7);
    matrix.set(2, 1, 8);
    let vector = vec![1, 2, 3];
    let result = matrix.left_mul(vector);
    assert_eq!(result, vec![30, 36]);
}

#[test]
fn set_returns_replaced_entry() {
    let mut matrix = CSCMatrix::new(2, 2);
    assert_eq!(matrix.set(1, 0, 5), None);
    assert_eq!(matrix.set(1, 0, -2), Some(5));
    assert_eq!(matrix.left_mul(vec![3, 4]), vec![-8, 0]);
}

#[test]
fn empty_matrix_times_vector_is_zero() {
    let matrix = CSCMatrix::new(3, 4);
    assert_eq!(matrix.left_mul(vec![1, 2, 3]), vec![0, 0, 0, 0]);
}

#[test]
fn pagerank_error_message() {
    assert_eq!(PagerankError::CapacityExceeded.message(), "Capacity exceeded");
}
