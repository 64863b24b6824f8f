use pbr::vector::{max_dimension, permute_v, Point2, Vector3};

#[test]
fn integer_vectors_add_subtract_and_scale() {
    let a = Vector3::new(1, -2, 3);
    let b = Vector3::new(4, 5, -6);
    assert_eq!(a + b, Vector3::new(5, 3, -3));
    assert_eq!(a - b, Vector3::new(-3, -7, 9));
    assert_eq!(a * 3, Vector3::new(3, -6, 9));
    assert_eq!(-a, Vector3::new(-1, 2, -3));
    assert_eq!(Vector3::<i32>::default(), Vector3::zero());
    assert!(Vector3::<i32>::zero().is_zero());
    assert!(!a.is_zero());
}

#[test]
fn cross_product_of_axes() {
    let x = Vector3::<i32>::x();
    let y = Vector3::<i32>::y();
    let z = Vector3::<i32>::z();
    assert_eq!(x.cross(&y), z);
    assert_eq!(y.cross(&z), x);
    assert_eq!(z.cross(&x), y);
    assert_eq!(y.cross(&x), -z);
    let a = Vector3::new(2, 3, 4);
    let b = Vector3::new(5, 6, 7);
    assert_eq!(a.cross(&b), Vector3::new(-3, 6, -3));
    assert_eq!(a.cross(&b).dot(&a), 0);
}

#[test]
fn lengths_and_absolute_values() {
    let a = Vector3::new(-3, 4, -12);
    assert_eq!(a.length_sq(), 169);
    assert_eq!(a.abs(), Vector3::new(3, 4, 12));
    assert_eq!(a.dot(&a), 169);
    let big = Vector3::new(i32::MAX, i32::MAX, i32::MAX);
    assert_eq!(big.length_sq(), 3 * (i32::MAX as i128) * (i32::MAX as i128));
}

#[test]
fn dimensions_and_permutations() {
    let a = Vector3::new(1, 7, 3);
    assert_eq!(max_dimension(&a), 1);
    assert_eq!(max_dimension(&Vector3::new(2, 2, 2)), 2);
    assert_eq!(permute_v(&a, 2, 0, 1), Vector3::new(3, 1, 7));
    assert_eq!(a.get(2), 3);
    let p = Point2::new(4u32, 9u32);
    assert_eq!((p.x, p.y), (4, 9));
}

#[test]
fn dot_product_commutes_and_cross_of_a_vector_with_itself_is_zero() {
    let a = Vector3::new(3, -7, 11);
    let b = Vector3::new(-2, 5, 13);
    assert_eq!(a.dot(&b), b.dot(&a));
    assert_eq!(a.dot(&b), -6 - 35 + 143);
    assert_eq!(a.cross(&a), Vector3::zero());
    assert_eq!(a.cross(&b), -b.cross(&a));
}
