use ndarray::array::ArrayBase;
use ndarray::linalg::general_mat_mul;
use ndarray::shape::Si;

type Array = ArrayBase<'static, i64>;

fn arr(shape: &[usize], v: Vec<i64>) -> Array {
    ArrayBase::from_shape_vec(shape.to_vec(), v).unwrap()
}

fn range_i64(m: usize, n: usize) -> Array {
    arr(&[m, n], (0..(m * n) as i64).collect())
}

fn zeros(m: usize, n: usize) -> Array {
    arr(&[m, n], vec![0; m * n])
}

fn elements(a: &ArrayBase<'_, i64>) -> Vec<i64> {
    a.fold(Vec::new(), |mut acc: Vec<i64>, x: i64| {
        acc.push(x);
        acc
    })
}

fn at(a: &ArrayBase<'_, i64>, i: usize, j: usize) -> i64 {
    *a.get(&vec![i, j]).unwrap()
}

// simple, slow, correct (hopefully) mat mul
fn reference_mat_mul(lhs: &ArrayBase<'_, i64>, rhs: &ArrayBase<'_, i64>) -> Array {
    let (m, k, n) = (lhs.shape()[0], lhs.shape()[1], rhs.shape()[1]);
    let mut v = Vec::with_capacity(m * n);
    for i in 0..m {
        for j in 0..n {
            v.push((0..k).fold(0, |s, x| s + at(lhs, i, x) * at(rhs, x, j)));
        }
    }
    arr(&[m, n], v)
}

// the dot product of two one-dimensional arrays, as a 1 × n by n × 1 product
fn dot(a: &ArrayBase<'_, i64>, b: &ArrayBase<'_, i64>) -> i64 {
    let n = a.shape()[0];
    let row = a.broadcast(vec![1, n]).unwrap();
    let col_t = b.broadcast(vec![1, n]).unwrap();
    let col = col_t.t();
    let mut c = zeros(1, 1);
    general_mat_mul(1, &row, &col, 0, &mut c);
    at(&c, 0, 0)
}

fn reference_dot(a: &ArrayBase<'_, i64>, b: &ArrayBase<'_, i64>) -> i64 {
    let x = elements(a);
    let y = elements(b);
    x.iter().zip(y.iter()).fold(0, |acc, (&p, &q)| acc + p * q)
}

fn test_oper(op: &str, a: &[i64], b: &[i64], c: &[i64]) {
    for dim in [vec![4], vec![2, 2], vec![1, 2, 1, 2]] {
        let mut aa = arr(&dim, a.to_vec()).into_shared();
        let bb = arr(&dim, b.to_vec());
        match op {
            "+" => aa.zip_mut_with(&bb, |x: i64, y: i64| x + y),
            "-" => aa.zip_mut_with(&bb, |x: i64, y: i64| x - y),
            "*" => aa.zip_mut_with(&bb, |x: i64, y: i64| x * y),
            "%" => aa.zip_mut_with(&bb, |x: i64, y: i64| x % y),
            "neg" => aa.mapv_inplace(|x: i64| -x),
            _ => panic!(),
        }
        assert_eq!(aa.shape(), &dim[..]);
        assert_eq!(elements(&aa), c.to_vec());
    }
}

#[test]
fn operations() {
    test_oper("+", &[1, 2, 3, 4], &[0, 1, 2, 3], &[1, 3, 5, 7]);
    test_oper("-", &[1, 2, 3, 4], &[0, 1, 2, 3], &[1, 1, 1, 1]);
    test_oper("*", &[1, 2, 3, 4], &[0, 1, 2, 3], &[0, 2, 6, 12]);
    test_oper("%", &[1, 2, 3, 4], &[1, 1, 2, 3], &[0, 0, 1, 1]);
    test_oper("neg", &[1, 2, 3, 4], &[1, 1, 2, 3], &[-1, -2, -3, -4]);
}

#[test]
fn scalar_operations() {
    let a = arr(&[], vec![1]);
    let b = arr(&[2], vec![1, 1]).into_shared();
    let c = arr(&[2, 2], vec![1, 1, 1, 1]).into_shared();
    let one = arr(&[], vec![1]);

    {
        let mut x = a.to_owned();
        let mut y = arr(&[], vec![0]);
        x.zip_mut_with(&one, |p: i64, q: i64| p + q);
        y.assign_scalar(&2);
        assert_eq!(elements(&x), vec![2]);
        assert_eq!(elements(&x), elements(&y));
    }

    {
        let mut x = b.to_shared();
        let mut y = arr(&[2], vec![0, 0]).into_shared();
        x.zip_mut_with(&one, |p: i64, q: i64| p + q);
        y.assign_scalar(&2);
        assert_eq!(elements(&x), vec![2, 2]);
        assert_eq!(elements(&x), elements(&y));
        assert_eq!(elements(&b), vec![1, 1]);
    }

    {
        let mut x = c.to_shared();
        let mut y = zeros(2, 2).into_shared();
        x.zip_mut_with(&one, |p: i64, q: i64| p + q);
        y.assign_scalar(&2);
        assert_eq!(elements(&x), vec![2, 2, 2, 2]);
        assert_eq!(elements(&x), elements(&y));
        assert_eq!(elements(&c), vec![1, 1, 1, 1]);
    }
}

#[test]
fn dot_product() {
    let a = ArrayBase::from_vec((0..69).collect::<Vec<i64>>());
    let mut b = a.to_owned();
    b.mapv_inplace(|x: i64| x * 2 - 7);
    let dot_value = 197846;
    assert_eq!(dot(&a, &b), reference_dot(&a, &b));
    assert_eq!(dot(&a, &b), dot_value);

    // test different alignments
    let max = 8 as isize;
    for i in 1..max {
        let a1 = a.slice(&vec![Si(i, None, 1)]);
        let b1 = b.slice(&vec![Si(i, None, 1)]);
        assert_eq!(dot(&a1, &b1), reference_dot(&a1, &b1));
        let a2 = a.slice(&vec![Si(0, Some(-i), 1)]);
        let b2 = b.slice(&vec![Si(i, None, 1)]);
        assert_eq!(dot(&a2, &b2), reference_dot(&a2, &b2));
    }
}

// test that we can dot product with a broadcast array
#[test]
fn dot_product_0() {
    let a = ArrayBase::from_vec((0..69).collect::<Vec<i64>>());
    let x = arr(&[], vec![3]);
    let b = x.broadcast(a.dim()).unwrap();
    assert_eq!(dot(&a, &b), reference_dot(&a, &b));

    // test different alignments
    let max = 8 as isize;
    for i in 1..max {
        let a1 = a.slice(&vec![Si(i, None, 1)]);
        let b1 = b.slice(&vec![Si(i, None, 1)]);
        assert_eq!(dot(&a1, &b1), reference_dot(&a1, &b1));
        let a2 = a.slice(&vec![Si(0, Some(-i), 1)]);
        let b2 = b.slice(&vec![Si(i, None, 1)]);
        assert_eq!(dot(&a2, &b2), reference_dot(&a2, &b2));
    }
}

#[test]
fn dot_product_neg_stride() {
    // test that we can dot with negative stride
    let a = ArrayBase::from_vec((0..69).collect::<Vec<i64>>());
    let mut b = a.to_owned();
    b.mapv_inplace(|x: i64| x * 2 - 7);
    for stride in -10..0 {
        // both negative
        let a1 = a.slice(&vec![Si(0, None, stride)]);
        let b1 = b.slice(&vec![Si(0, None, stride)]);
        assert_eq!(dot(&a1, &b1), reference_dot(&a1, &b1));
    }
    for stride in -10..0 {
        // mixed
        let a1 = a.slice(&vec![Si(0, None, -stride)]);
        let b1 = b.slice(&vec![Si(0, None, stride)]);
        assert_eq!(dot(&a1, &b1), reference_dot(&a1, &b1));
    }
}

fn mat_mul_case(m: usize, n: usize, k: usize) {
    let a = range_i64(m, n);
    let mut b = range_i64(n, k);
    {
        // add one to column 0
        let mut col = b.subview_mut(1, 0);
        col.mapv_inplace(|x: i64| x + 1);
    }
    let mut ab = zeros(m, k);
    general_mat_mul(1, &a, &b, 0, &mut ab);

    // the same matrices in column-major layout
    let mut af = zeros(n, m).reversed_axes();
    let mut bf = zeros(k, n).reversed_axes();
    af.assign(&a);
    bf.assign(&b);
    assert_eq!(af.strides()[0], 1);

    for (l, r) in [(&a, &bf), (&af, &b), (&af, &bf)] {
        let mut c = zeros(m, k);
        general_mat_mul(1, l, r, 0, &mut c);
        assert_eq!(elements(&c), elements(&ab));
    }
    assert_eq!(elements(&ab), elements(&reference_mat_mul(&a, &b)));
}

#[test]
fn mat_mul() {
    mat_mul_case(8, 8, 8);
    mat_mul_case(10, 5, 11);
    mat_mul_case(10, 8, 1);
}

// Check that matrix multiplication
// supports broadcast arrays.
#[test]
fn mat_mul_broadcast() {
    let (m, n, k) = (16, 16, 16);
    let a = range_i64(m, n);
    let x1 = 1;
    let x = ArrayBase::from_vec(vec![x1]);
    let b0 = x.broadcast(vec![n, k]).unwrap();
    let b1 = ArrayBase::from_vec(vec![x1; n]);
    let b1 = b1.broadcast(vec![n, k]).unwrap();
    let b2 = arr(&[n, k], vec![x1; n * k]);

    let mut c2 = zeros(m, k);
    let mut c1 = zeros(m, k);
    let mut c0 = zeros(m, k);
    general_mat_mul(1, &a, &b2, 0, &mut c2);
    general_mat_mul(1, &a, &b1, 0, &mut c1);
    general_mat_mul(1, &a, &b0, 0, &mut c0);
    assert_eq!(elements(&c2), elements(&c1));
    assert_eq!(elements(&c2), elements(&c0));
}

// Check that matrix multiplication supports reversed axes
#[test]
fn mat_mul_rev() {
    let (m, n, k) = (16, 16, 16);
    let a = range_i64(m, n);
    let b = range_i64(n, k);
    let mut rev = zeros(n, k);
    let mut rev = rev.slice_mut(&vec![Si(0, None, -1), Si(0, None, 1)]);
    rev.assign(&b);
    assert_eq!(rev.strides()[0], -(k as isize));

    let mut c1 = zeros(m, k);
    let mut c2 = zeros(m, k);
    general_mat_mul(1, &a, &b, 0, &mut c1);
    general_mat_mul(1, &a, &rev, 0, &mut c2);
    assert_eq!(elements(&c1), elements(&c2));
}

fn gen_mat_mul_check(alpha: i64, beta: i64, s1: isize, s2: isize) {
    let sizes = vec![
        (4, 4, 4),
        (8, 8, 8),
        (17, 15, 16),
        (4, 17, 3),
        (17, 3, 22),
        (19, 18, 2),
        (16, 17, 15),
        (15, 16, 17),
        (67, 63, 62),
    ];
    for &(m, k, n) in &sizes {
        let a = range_i64(m, k);
        let b = range_i64(k, n);
        let mut c = range_i64(m, n);
        let mut answer = c.to_owned();

        {
            let sl = vec![Si(0, None, s1), Si(0, None, s2)];
            let a = a.slice(&vec![Si(0, None, s1), Si(0, None, s2)]);
            let b = b.slice(&vec![Si(0, None, s2), Si(0, None, s2)]);
            let mut cv = c.slice_mut(&sl);

            let mut answer_part = reference_mat_mul(&a, &b);
            answer_part.zip_mut_with(&cv, |p: i64, q: i64| alpha * p + beta * q);
            answer.slice_mut(&sl).assign(&answer_part);

            general_mat_mul(alpha, &a, &b, beta, &mut cv);
        }
        assert_eq!(c.shape(), answer.shape());
        assert_eq!(elements(&c), elements(&answer));
    }
}

#[test]
fn gen_mat_mul() {
    // test different strides
    for &s1 in &[1, 2, -1, -2] {
        for &s2 in &[1, 2, -1, -2] {
            gen_mat_mul_check(-2, 3, s1, s2);
        }
    }
}

#[test]
fn gen_mat_mul_i32() {
    let alpha = -1;
    let beta = 2;
    let sizes = vec![
        (4, 4, 4),
        (8, 8, 8),
        (17, 15, 16),
        (4, 17, 3),
        (17, 3, 22),
        (19, 18, 2),
        (16, 17, 15),
        (15, 16, 17),
        (67, 63, 62),
    ];
    for &(m, k, n) in &sizes {
        let a = range_i64(m, k);
        let b = range_i64(k, n);
        let mut c = range_i64(m, n);

        let product = reference_mat_mul(&a, &b);
        let mut answer = product.to_owned();
        answer.zip_mut_with(&c, |p: i64, q: i64| alpha * p + beta * q);
        general_mat_mul(alpha, &a, &b, beta, &mut c);
        assert_eq!(elements(&c), elements(&answer));
    }
}
