use algebra::algebraic::{one, zero, ScalarMul, Zero};
use algebra::graph::{Graph, WGraph};
use algebra::matrix::Matrix2D;
use algebra::minmax::{Max, Min};
use algebra::tropical::{MaxPlusSemiring, MinPlusSemiring};

#[test]
fn is() {}

#[test]
fn identity_helpers() {
    let z: i64 = zero();
    let o: i64 = one();
    assert_eq!(z, 0);
    assert_eq!(o, 1);
    assert!(z.is_zero());
    assert!(!o.is_zero());
    assert_eq!(7u32.scalar_mul(6), 42);
}

#[test]
fn min_max_monoids() {
    assert_eq!(Min(3).add(Min(-5)), Min(-5));
    assert_eq!(Max(3).add(Max(-5)), Max(3));
    let mut m = Min(10);
    m.add_assign(Min(2));
    assert_eq!(m, Min(2));
    let mut m = Max(10);
    m.add_assign(Max(2));
    assert_eq!(m, Max(10));
}

#[test]
fn tropical_semirings() {
    let a = MaxPlusSemiring::new(3);
    let b = MaxPlusSemiring::new(5);
    assert_eq!(a.add(b).value(), 5);
    assert_eq!(a.mul(b).value(), 8);
    assert!(MaxPlusSemiring::zero().is_zero());
    assert_eq!(MaxPlusSemiring::one().value(), 0);

    let a = MinPlusSemiring::new(3);
    let b = MinPlusSemiring::new(5);
    assert_eq!(a.add(b).value(), 3);
    assert_eq!(a.mul(b).value(), 8);
    assert!(MinPlusSemiring::zero().is_zero());
    assert_eq!(MinPlusSemiring::one().value(), 0);
}

#[test]
fn matrix_shape() {
    let m = Matrix2D::new(&vec![vec![1, 2], vec![3, 4], vec![5, 6]]).unwrap();
    assert_eq!(m.nrows(), 3);
    assert_eq!(m.ncols(), 2);
    assert!(Matrix2D::new(&vec![vec![1, 2], vec![3]]).is_none());
    let same = Matrix2D::new(&vec![vec![9, 9], vec![9, 9], vec![9, 9]]).unwrap();
    assert!(m.check_size(&same));
    let other = Matrix2D::new(&vec![vec![1, 2]]).unwrap();
    assert!(!m.check_size(&other));
}

#[test]
fn matrix_arithmetic() {
    let a = Matrix2D::new(&vec![vec![1, 2], vec![3, 4]]).unwrap();
    let b = Matrix2D::new(&vec![vec![5, 6], vec![7, 8]]).unwrap();
    let s = a.add(&b);
    let sv = Matrix2D::new(&vec![vec![6, 8], vec![10, 12]]).unwrap();
    assert!(s.check_size(&sv));
    assert_eq!(s.entry(0, 0), 6);
    assert_eq!(s.entry(1, 1), 12);
    // (1 2; 3 4) * (5 6; 7 8) == (19 22; 43 50)
    let p = a.mul(&b);
    assert_eq!(p.nrows(), 2);
    assert_eq!(p.ncols(), 2);
    assert_eq!(p.entry(0, 0), 19);
    assert_eq!(p.entry(0, 1), 22);
    assert_eq!(p.entry(1, 0), 43);
    assert_eq!(p.entry(1, 1), 50);
    let i2 = Matrix2D::new(&vec![vec![1, 0], vec![0, 1]]).unwrap();
    let q = a.mul(&i2);
    assert!(q.check_size(&a));
    assert_eq!(q.entry(0, 1), 2);
    assert_eq!(q.entry(1, 0), 3);
}

#[test]
fn graph_adjacency() {
    let g: Vec<Vec<usize>> = vec![vec![1, 2], vec![2], vec![]];
    assert_eq!(Graph::len(&g), 3);
    assert_eq!(g.adj(0), vec![1, 2]);
    assert_eq!(g.adj(2), Vec::<usize>::new());
    assert_eq!(g.adj_w(0), vec![(1, 1), (2, 1)]);

    let w: Vec<Vec<(usize, i64)>> = vec![vec![(1, 9), (2, -4)], vec![], vec![(0, 5)]];
    assert_eq!(Graph::len(&w), 3);
    assert_eq!(w.adj(0), vec![1, 2]);
    assert_eq!(w.adj_w(2), vec![(0, 5)]);
}
