use pbr::matrix::Matrix;

fn m(rows: [[i32; 4]; 4]) -> Matrix {
    Matrix::new(rows)
}

#[test]
fn matrix_equality() {
    let a = m([[1, 2, 3, 4], [5, 6, 7, 8], [9, 8, 7, 6], [5, 4, 3, 2]]);
    let b = m([[1, 2, 3, 4], [5, 6, 7, 8], [9, 8, 7, 6], [5, 4, 3, 2]]);
    let c = m([[2, 3, 4, 5], [6, 7, 8, 9], [8, 7, 6, 5], [4, 3, 2, 1]]);

    assert_eq!(a, b);
    assert_ne!(a, c);
}

#[test]
fn multiply_matrix_by_matrix() {
    let a = m([[1, 2, 3, 4], [5, 6, 7, 8], [9, 8, 7, 6], [5, 4, 3, 2]]);
    let b = m([[-2, 1, 2, 3], [3, 2, 1, -1], [4, 3, 6, 5], [1, 2, 7, 8]]);
    let c = m([[20, 22, 50, 48], [44, 54, 114, 108], [40, 58, 110, 102], [16, 26, 46, 42]]);

    assert_eq!(&a * &b, c);
}

#[test]
fn multiply_matrix_by_identity() {
    let a = m([[0, 1, 2, 4], [1, 2, 4, 8], [2, 4, 8, 16], [4, 8, 16, 32]]);
    let actual = &a * &Matrix::identity();

    assert_eq!(a, actual);
}

#[test]
fn matrix_transpose_matrix() {
    let a = m([[0, 9, 3, 0], [9, 8, 0, 8], [1, 8, 5, 3], [0, 0, 5, 8]]);
    let expected = m([[0, 9, 1, 0], [9, 8, 8, 0], [3, 0, 5, 5], [0, 8, 3, 8]]);

    assert_eq!(a.transpose(), expected);
}

#[test]
fn matrix_transpose_identity() {
    let a = Matrix::identity();
    let expected = a.clone();

    assert_eq!(a.transpose(), expected);
}

#[test]
fn default_matrix_is_identity() {
    assert_eq!(Matrix::default(), Matrix::identity());
}

#[test]
fn identity_times_matrix_is_matrix() {
    let a = m([[3, -1, 0, 2], [7, 7, 7, 7], [0, 0, 1, -9], [2, 4, 6, 8]]);
    assert_eq!(&Matrix::identity() * &a, a);
}

#[test]
fn transpose_twice_is_identity_map() {
    let a = m([[3, -1, 0, 2], [7, 6, 5, 4], [0, 0, 1, -9], [2, 4, 6, 8]]);
    assert_eq!(a.transpose().transpose(), a);
}

#[test]
fn transpose_of_product_reverses_order() {
    let a = m([[1, 2, 3, 4], [5, 6, 7, 8], [9, 8, 7, 6], [5, 4, 3, 2]]);
    let b = m([[-2, 1, 2, 3], [3, 2, 1, -1], [4, 3, 6, 5], [1, 2, 7, 8]]);
    assert_eq!((&a * &b).transpose(), &b.transpose() * &a.transpose());
}

#[test]
fn product_is_associative() {
    let a = m([[1, 2, 3, 4], [5, 6, 7, 8], [9, 8, 7, 6], [5, 4, 3, 2]]);
    let b = m([[-2, 1, 2, 3], [3, 2, 1, -1], [4, 3, 6, 5], [1, 2, 7, 8]]);
    let c = m([[0, 1, 0, 0], [1, 0, 0, 2], [0, 0, 3, 0], [1, 1, 1, 1]]);
    assert_eq!(&(&a * &b) * &c, &a * &(&b * &c));
}

#[test]
fn product_uses_full_i32_range() {
    let big = i32::MAX / 2;
    let a = m([[big, 1, 0, 0], [0, 1, 0, 0], [0, 0, 1, 0], [0, 0, 0, 1]]);
    let b = m([[2, 0, 0, 0], [1, 1, 0, 0], [0, 0, 1, 0], [0, 0, 0, 1]]);
    assert_eq!((&a * &b).data[0][0], big * 2 + 1);
}
