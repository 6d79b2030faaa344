use integral_graphs::matrix::{add, multiply};
use integral_graphs::spectral::{
    characteristic_polynomial, divisors, is_factorable, is_integral, synthetic_division,
};
use integral_graphs::{AdjMatrix, GraphError, Matrix};

fn cycle(n: u32) -> AdjMatrix {
    let mut c = AdjMatrix::empty(n as u64).unwrap();
    for i in 0..n - 1 {
        c.set(i, i + 1, true).unwrap();
    }
    c.set(0, n - 1, true).unwrap();
    c
}

#[test]
fn identity_polynomial_is_binomial() {
    let two = characteristic_polynomial(&Matrix::identity(2).unwrap()).unwrap();
    assert_eq!(two, vec![1, -2, 1]);
    let three = characteristic_polynomial(&Matrix::identity(3).unwrap()).unwrap();
    assert_eq!(three, vec![-1, 3, -3, 1]);
    let five = characteristic_polynomial(&Matrix::identity(5).unwrap()).unwrap();
    assert_eq!(five, vec![-1, 5, -10, 10, -5, 1]);
    let zero = characteristic_polynomial(&Matrix::identity(0).unwrap()).unwrap();
    assert_eq!(zero, vec![1]);
}

#[test]
fn polynomial_of_a_small_matrix() {
    // [[2, 1], [1, 2]] has x^2 - 4x + 3.
    let m = Matrix::from_vec_vec(vec![vec![2, 1], vec![1, 2]]).unwrap();
    assert_eq!(characteristic_polynomial(&m).unwrap(), vec![3, -4, 1]);
}

#[test]
fn polynomial_overflow_is_reported() {
    let big = i128::MAX / 2;
    let m = Matrix::from_vec_vec(vec![vec![big, big], vec![big, big]]).unwrap();
    assert_eq!(characteristic_polynomial(&m), Err(GraphError::ArithmeticInvariant));
}

#[test]
fn complete_graphs_are_integral() {
    for n in 1..8u64 {
        assert_eq!(is_integral(AdjMatrix::complete(n).unwrap()), Ok(true));
    }
}

#[test]
fn empty_graphs_are_integral() {
    for n in 1..8u64 {
        assert_eq!(is_integral(AdjMatrix::empty(n).unwrap()), Ok(true));
    }
}

#[test]
fn five_cycle_is_not_integral() {
    assert_eq!(is_integral(cycle(5)), Ok(false));
}

#[test]
fn cycles_integral_exactly_at_3_4_6() {
    let found: Vec<u32> = (3..11u32).filter(|&n| is_integral(cycle(n)).unwrap()).collect();
    assert_eq!(found, vec![3, 4, 6]);
}

#[test]
fn divisors_are_ascending() {
    assert_eq!(divisors(0), vec![0]);
    assert_eq!(divisors(6), vec![-6, -3, -2, -1, 1, 2, 3, 6]);
    assert_eq!(divisors(-4), vec![-4, -2, -1, 1, 2, 4]);
    assert_eq!(divisors(1), vec![-1, 1]);
    assert_eq!(divisors(-7), vec![-7, -1, 1, 7]);
}

#[test]
fn synthetic_division_exact_and_inexact() {
    // x^2 - 1 = (x - 1)(x + 1)
    assert_eq!(synthetic_division(&[-1, 0, 1], 1), Some(vec![1, 1]));
    assert_eq!(synthetic_division(&[-1, 0, 1], -1), Some(vec![-1, 1]));
    // x^2 + 1 has no root at 1.
    assert_eq!(synthetic_division(&[1, 0, 1], 1), None);
    // x^3 - 6x^2 + 11x - 6 by (x - 2) is x^2 - 4x + 3.
    assert_eq!(synthetic_division(&[-6, 11, -6, 1], 2), Some(vec![3, -4, 1]));
    assert_eq!(synthetic_division(&[], 3), None);
    assert_eq!(synthetic_division(&[0], 3), Some(vec![]));
    assert_eq!(synthetic_division(&[4], 3), None);
}

#[test]
fn synthetic_division_overflow_is_none() {
    assert_eq!(synthetic_division(&[0, 0, 1], i128::MAX), None);
}

#[test]
fn factorability() {
    assert!(!is_factorable(&[]));
    assert!(is_factorable(&[5]));
    assert!(is_factorable(&[2, -3, 1]));
    assert!(!is_factorable(&[1, 0, 1]));
    assert!(is_factorable(&[0, 0, 1]));
    assert!(!is_factorable(&[-2, 0, 1]));
    assert!(is_factorable(&[-6, 11, -6, 1]));
}

#[test]
fn matrix_products_and_sums() {
    let a = Matrix::from_vec_vec(vec![vec![1, 2], vec![3, 4]]).unwrap();
    let b = Matrix::from_vec_vec(vec![vec![0, 1], vec![1, 0]]).unwrap();
    let p = multiply(&a, &b).unwrap();
    assert_eq!(p.get(0, 0), Ok(2));
    assert_eq!(p.get(0, 1), Ok(1));
    assert_eq!(p.get(1, 0), Ok(4));
    assert_eq!(p.get(1, 1), Ok(3));
    let s = add(&a, &b).unwrap();
    assert_eq!(s.get(0, 1), Ok(3));
    assert_eq!(s.get(1, 1), Ok(4));
    assert_eq!(a.trace(), Ok(5));
    assert_eq!(a.get_n(), 2);
}

#[test]
fn matrix_errors() {
    let a = Matrix::identity(2).unwrap();
    let b = Matrix::identity(3).unwrap();
    assert!(matches!(add(&a, &b), Err(GraphError::Shape)));
    assert!(matches!(multiply(&a, &b), Err(GraphError::Shape)));
    assert_eq!(a.get(2, 0), Err(GraphError::Index));
    assert!(matches!(Matrix::from_vec_vec(vec![vec![1, 2], vec![3]]), Err(GraphError::Shape)));
    assert!(matches!(Matrix::zeroed(1 << 40), Err(GraphError::Allocation)));
    let big = Matrix::from_vec_vec(vec![vec![i128::MAX, 0], vec![0, 1]]).unwrap();
    assert!(matches!(add(&big, &Matrix::identity(2).unwrap()), Err(GraphError::ArithmeticInvariant)));
    assert!(matches!(multiply(&big, &big), Err(GraphError::ArithmeticInvariant)));
    assert_eq!(big.trace(), Err(GraphError::ArithmeticInvariant));
}

#[test]
fn matrix_set_and_get() {
    let mut m = Matrix::zeroed(3).unwrap();
    m.set(1, 2, -7).unwrap();
    assert_eq!(m.get(1, 2), Ok(-7));
    assert_eq!(m.get(2, 1), Ok(0));
    assert_eq!(m.set(3, 0, 1), Err(GraphError::Index));
}

#[test]
fn adjacency_matrix_of_a_graph() {
    let mut g = AdjMatrix::empty(3).unwrap();
    g.set(0, 2, true).unwrap();
    let m = Matrix::from_graph(g).unwrap();
    assert_eq!(m.get(0, 2), Ok(1));
    assert_eq!(m.get(2, 0), Ok(1));
    assert_eq!(m.get(0, 1), Ok(0));
    assert_eq!(m.get(1, 1), Ok(0));
}

#[test]
fn matrix_text() {
    let m = Matrix::from_vec_vec(vec![vec![0, -12], vec![305, 7]]).unwrap();
    assert_eq!(m.to_text(), "Matrix(2):\n 0 -12 \n 305 7 \n");
    assert_eq!(Matrix::zeroed(0).unwrap().to_text(), "Matrix(0):\n");
    let extreme = Matrix::from_vec_vec(vec![vec![i128::MIN]]).unwrap();
    assert_eq!(extreme.to_text(), format!("Matrix(1):\n {} \n", i128::MIN));
}
