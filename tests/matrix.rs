use raytracer::matrix::{Matrix, MatrixError};

fn identity() -> Matrix<f64> {
    Matrix::new(vec![
        1.0, 0.0, 0.0, 0.0,
        0.0, 1.0, 0.0, 0.0,
        0.0, 0.0, 1.0, 0.0,
        0.0, 0.0, 0.0, 1.0,
    ])
    .unwrap()
}

#[test]
fn creating_a_matrix() {
    let m = Matrix::new(vec![
        1.0, 2.0, 3.0, 4.0,
        5.5, 6.5, 7.5, 8.5,
        9.0, 10.0, 11.0, 12.0,
        13.5, 14.5, 15.5, 16.5,
    ])
    .unwrap();

    assert_eq!(m.size, 4);
    assert_eq!(m.data[0], 1.0);
    assert_eq!(m.data[1], 2.0);
    assert_eq!(m.data[4], 5.5);
    assert_eq!(m.data[7], 8.5);
    assert_eq!(m.data[8], 9.0);
    assert_eq!(m.data[10], 11.0);
    assert_eq!(m.data[13], 14.5);
    assert_eq!(m.data[15], 16.5);
}

#[test]
fn creating_a_2x2_matrix() {
    let m = Matrix::new(vec![
        -3.0, 5.0,
        1.0, -2.0,
    ])
    .unwrap();

    assert_eq!(m.size, 2);
    assert_eq!(m.data[0], -3.0);
    assert_eq!(m.data[1], 5.0);
    assert_eq!(m.data[2], 1.0);
    assert_eq!(m.data[3], -2.0);
}

#[test]
fn creating_a_3x3_matrix() {
    let m = Matrix::new(vec![
        -3.0, 5.0, 0.0,
        1.0, -2.0, -7.0,
        0.0, 1.0, 1.0,
    ])
    .unwrap();

    assert_eq!(m.size, 3);
    assert_eq!(m.data[0], -3.0);
    assert_eq!(m.data[1], 5.0);
    assert_eq!(m.data[2], 0.0);
    assert_eq!(m.data[3], 1.0);
    assert_eq!(m.data[4], -2.0);
    assert_eq!(m.data[5], -7.0);
    assert_eq!(m.data[6], 0.0);
    assert_eq!(m.data[7], 1.0);
    assert_eq!(m.data[8], 1.0);
}

#[test]
fn matrix_equality_with_identical_matrices() {
    let a = Matrix::new(vec![
        1.0, 2.0, 3.0, 4.0,
        5.0, 6.0, 7.0, 8.0,
        9.0, 8.0, 7.0, 6.0,
        5.0, 4.0, 3.0, 2.0,
    ])
    .unwrap();

    let b = Matrix::new(vec![
        1.0, 2.0, 3.0, 4.0,
        5.0, 6.0, 7.0, 8.0,
        9.0, 8.0, 7.0, 6.0,
        5.0, 4.0, 3.0, 2.0,
    ])
    .unwrap();

    assert_eq!(a, b);
}

#[test]
fn matrix_equality_with_different_matrices() {
    let a = Matrix::new(vec![
        1.0, 2.0, 3.0, 4.0,
        5.0, 6.0, 7.0, 8.0,
        9.0, 8.0, 7.0, 6.0,
        5.0, 4.0, 3.0, 2.0,
    ])
    .unwrap();

    let b = Matrix::new(vec![
        2.0, 3.0, 4.0, 5.0,
        6.0, 7.0, 8.0, 9.0,
        8.0, 7.0, 6.0, 5.0,
        4.0, 3.0, 2.0, 1.0,
    ])
    .unwrap();

    assert_ne!(a, b);
}

#[test]
fn transposing_a_matrix() {
    let a = Matrix::new(vec![
        0.0, 9.0, 3.0, 0.0,
        9.0, 8.0, 0.0, 8.0,
        1.0, 8.0, 5.0, 3.0,
        0.0, 0.0, 5.0, 8.0,
    ])
    .unwrap();

    let b = Matrix::new(vec![
        0.0, 9.0, 1.0, 0.0,
        9.0, 8.0, 8.0, 0.0,
        3.0, 0.0, 5.0, 5.0,
        0.0, 8.0, 3.0, 8.0,
    ])
    .unwrap();

    assert_eq!(a.transpose(), b);
}

#[test]
fn transposing_the_identity_matrix() {
    assert_eq!(identity().transpose(), identity());
}

#[test]
fn a_submatrix_of_a_3x3_matrix_is_a_2x2_matrix() {
    let a = Matrix::new(vec![
        1.0, 5.0, 0.0,
        -3.0, 2.0, 7.0,
        0.0, 6.0, -3.0,
    ])
    .unwrap();

    let b = Matrix::new(vec![
        -3.0, 2.0,
        0.0, 6.0,
    ])
    .unwrap();

    assert_eq!(a.submatrix(0, 2), b);
}

#[test]
fn a_submatrix_of_a_4x4_matrix_is_a_3x3_matrix() {
    let a = Matrix::new(vec![
        -6.0, 1.0, 1.0, 6.0,
        -8.0, 5.0, 8.0, 6.0,
        -1.0, 0.0, 8.0, 2.0,
        -7.0, 1.0, -1.0, 1.0,
    ])
    .unwrap();

    let b = Matrix::new(vec![
        -6.0, 1.0, 6.0,
        -8.0, 8.0, 6.0,
        -7.0, -1.0, 1.0,
    ])
    .unwrap();

    assert_eq!(a.submatrix(2, 1), b);
}

#[test]
fn a_submatrix_of_a_2x2_matrix_is_a_single_element() {
    let a = Matrix::new(vec![1.0, 5.0, -3.0, 2.0]).unwrap();
    let s = a.submatrix(0, 1);
    assert_eq!(s.size, 1);
    assert_eq!(s.data, vec![-3.0]);
}

#[test]
fn matrix_element_counts_that_are_not_2x2_3x3_or_4x4_are_refused() {
    assert_eq!(Matrix::new(Vec::<f64>::new()), Err(MatrixError::InvalidSize));
    assert_eq!(Matrix::new(vec![1.0]), Err(MatrixError::InvalidSize));
    assert_eq!(Matrix::new(vec![1.0, 2.0, 3.0]), Err(MatrixError::InvalidSize));
    assert_eq!(Matrix::new(vec![0.0; 25]), Err(MatrixError::InvalidSize));
    assert_eq!(Matrix::new(vec![0.0; 15]), Err(MatrixError::InvalidSize));
}

#[test]
fn reading_an_element_by_row_and_column() {
    let a = Matrix::new(vec![
        1.0, 2.0, 3.0,
        4.0, 5.0, 6.0,
        7.0, 8.0, 9.0,
    ])
    .unwrap();
    assert_eq!(a.at(0, 2), 3.0);
    assert_eq!(a.at(2, 0), 7.0);
    assert_eq!(a.transpose().at(0, 2), 7.0);
}
