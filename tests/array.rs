use ndarray::array::{ArrayBase, ErrorKind, Ownership};
use ndarray::shape::{default_strides_of, fortran_strides_of, size_checked, Si};

type Array = ArrayBase<'static, i64>;

fn arr(shape: &[usize], v: Vec<i64>) -> Array {
    ArrayBase::from_shape_vec(shape.to_vec(), v).unwrap()
}

fn range(shape: &[usize]) -> Array {
    let n: usize = shape.iter().product();
    arr(shape, (0..n as i64).collect())
}

fn elements(a: &ArrayBase<'_, i64>) -> Vec<i64> {
    a.fold(Vec::new(), |mut acc: Vec<i64>, x: i64| {
        acc.push(x);
        acc
    })
}

fn get(a: &ArrayBase<'_, i64>, idx: &[usize]) -> i64 {
    *a.get(&idx.to_vec()).unwrap()
}

#[test]
fn row_major_offsets_step_by_one() {
    let shape = vec![2, 3, 4];
    let strides = default_strides_of(&shape);
    assert_eq!(strides, vec![12, 4, 1]);
    let mut expected = 0isize;
    for i in 0..2 {
        for j in 0..3 {
            for k in 0..4 {
                let off = i as isize * strides[0] + j as isize * strides[1] + k as isize * strides[2];
                assert_eq!(off, expected);
                expected += 1;
            }
        }
    }
    assert_eq!(expected - 1, 23);
    assert_eq!(fortran_strides_of(&shape), vec![1, 2, 6]);
    assert_eq!(default_strides_of(&vec![]), Vec::<isize>::new());
}

#[test]
fn element_count_checks() {
    assert_eq!(size_checked(&vec![2, 3, 4]), Some(24));
    assert_eq!(size_checked(&vec![]), Some(1));
    assert_eq!(size_checked(&vec![5, 0, 7]), Some(0));
    assert_eq!(size_checked(&vec![usize::MAX, 2]), None);
    let e = ArrayBase::from_shape_vec(vec![2, 2], vec![1i64, 2, 3]).err().unwrap();
    assert_eq!(e.kind, ErrorKind::IncompatibleShape);
}

#[test]
fn indexing() {
    let a = range(&[2, 3]);
    assert_eq!(a.len(), 6);
    assert_eq!(a.ndim(), 2);
    assert_eq!(a.shape(), &[2, 3]);
    assert_eq!(a.strides(), &[3, 1]);
    assert_eq!(a.get(&vec![1, 2]), Some(&5));
    assert_eq!(a.get(&vec![2, 0]), None);
    assert_eq!(a.get(&vec![1]), None);
    assert_eq!(*a.uget(&vec![0, 1]), 1);
    assert_eq!(a.ownership(), Ownership::Exclusive);
    assert_eq!(a.view().ownership(), Ownership::View);
}

#[test]
fn diagonal_of_square_range() {
    for n in 1..6usize {
        let a = range(&[n, n]);
        let d = a.diag();
        assert_eq!(d.shape(), &[n]);
        let expected: Vec<i64> = (0..n as i64).map(|i| i * (n as i64 + 1)).collect();
        assert_eq!(elements(&d), expected);
    }
    let r = range(&[2, 3, 4]);
    assert_eq!(elements(&r.diag()), vec![0, 17]);
    let z = arr(&[], vec![9]);
    assert_eq!(elements(&z.diag()), vec![9]);
}

#[test]
fn diagonal_of_sliced_view() {
    let a = range(&[4, 4]);
    let s = a.slice(&vec![Si(0, None, -1), Si(1, None, 1)]);
    assert_eq!(s.shape(), &[4, 3]);
    assert_eq!(elements(&s.diag()), vec![13, 10, 7]);
}

#[test]
fn broadcast_compatibility() {
    let a = range(&[1, 2, 4]);
    let b = a.broadcast(vec![7, 6, 2, 4]).unwrap();
    assert_eq!(b.shape(), &[7, 6, 2, 4]);
    for i in 0..7 {
        for j in 0..6 {
            for k in 0..2 {
                for l in 0..4 {
                    assert_eq!(get(&b, &[i, j, k, l]), get(&a, &[0, k, l]));
                }
            }
        }
    }
    assert_eq!(b.strides(), &[0, 0, 4, 1]);
    let c = range(&[2, 2]);
    assert!(c.broadcast(vec![2, 4]).is_none());
    assert!(c.broadcast(vec![2]).is_none());
    let s = arr(&[], vec![3]);
    assert_eq!(elements(&s.broadcast(vec![2, 2]).unwrap()), vec![3, 3, 3, 3]);
}

#[test]
fn reshape_round_trip() {
    let a = range(&[2, 3, 4]).into_shared();
    let b = a.reshape(vec![6, 4]);
    assert_eq!(b.shape(), &[6, 4]);
    assert_eq!(elements(&b), elements(&a));
    assert!(b.is_shared_with(&a));
    let c = b.reshape(vec![2, 3, 4]);
    assert_eq!(c.shape(), &[2, 3, 4]);
    for i in 0..2 {
        for j in 0..3 {
            for k in 0..4 {
                assert_eq!(get(&c, &[i, j, k]), get(&a, &[i, j, k]));
            }
        }
    }
}

#[test]
fn reshape_copies_non_standard_layout() {
    let a = range(&[2, 3]);
    let t = a.t();
    let r = t.reshape(vec![6]);
    assert_eq!(elements(&r), vec![0, 3, 1, 4, 2, 5]);
    assert_eq!(r.ownership(), Ownership::Exclusive);
}

#[test]
fn into_shape_errors() {
    let a = range(&[2, 3]);
    let e = a.view().into_shape(vec![4]).err().unwrap();
    assert_eq!(e.kind, ErrorKind::IncompatibleShape);
    let f = a.t().into_shape(vec![6]).unwrap();
    assert_eq!(elements(&f), vec![0, 1, 2, 3, 4, 5]);
    let g = a.t().into_shape(vec![2, 3]).unwrap();
    assert_eq!(elements(&g), vec![0, 2, 4, 1, 3, 5]);
    let e = a.slice(&vec![Si(0, None, 1), Si(0, None, 2)]).into_shape(vec![4]).err().unwrap();
    assert_eq!(e.kind, ErrorKind::IncompatibleLayout);
    let ok = a.view().into_shape(vec![3, 2]).unwrap();
    assert_eq!(get(&ok, &[2, 1]), 5);
}

#[test]
fn copy_on_write_isolation() {
    let a = range(&[2, 2]).into_shared();
    let mut b = a.to_shared();
    assert!(a.is_shared_with(&b));
    b.assign_scalar(&7);
    assert!(!a.is_shared_with(&b));
    assert_eq!(elements(&a), vec![0, 1, 2, 3]);
    assert_eq!(elements(&b), vec![7, 7, 7, 7]);
    assert_eq!(b.ownership(), Ownership::Shared);

    let mut c = a.to_shared();
    c.ensure_unique();
    assert!(!a.is_shared_with(&c));
    assert_eq!(elements(&c), vec![0, 1, 2, 3]);
}

#[test]
fn fold_is_independent_of_layout() {
    let a = range(&[3, 4]);
    let sum = |acc: i64, x: i64| acc + x;
    let total = a.fold(0, sum);
    assert_eq!(total, 66);
    let t = a.t();
    assert_eq!(t.fold(0, sum), 66);
    let tt = t.to_owned();
    assert_eq!(tt.fold(0, sum), 66);
    let s = a.slice(&vec![Si(0, None, -1), Si(0, None, 1)]);
    assert_eq!(s.fold(0, sum), 66);

    let mut x = range(&[3, 4]);
    let mut y = range(&[4, 3]).reversed_axes();
    y.assign(&a);
    x.zip_mut_with(&a, |p: i64, q: i64| p * 10 + q);
    y.zip_mut_with(&a, |p: i64, q: i64| p * 10 + q);
    assert_eq!(elements(&x), elements(&y));
    assert_eq!(x.fold(0, sum), 726);
}

#[test]
fn slicing() {
    let a = range(&[10]);
    assert_eq!(elements(&a.slice(&vec![Si(2, Some(8), 3)])), vec![2, 5]);
    assert_eq!(elements(&a.slice(&vec![Si(0, None, -3)])), vec![9, 6, 3, 0]);
    assert_eq!(elements(&a.slice(&vec![Si(-3, None, 1)])), vec![7, 8, 9]);
    assert_eq!(elements(&a.slice(&vec![Si(0, Some(-8), 1)])), vec![0, 1]);
    assert_eq!(elements(&a.slice(&vec![Si(5, Some(2), 1)])), Vec::<i64>::new());
    let mut b = range(&[3, 4]);
    b.islice(&vec![Si(1, None, 1), Si(0, None, 2)]);
    assert_eq!(b.shape(), &[2, 2]);
    assert_eq!(elements(&b), vec![4, 6, 8, 10]);
}

#[test]
fn subviews() {
    let a = range(&[3, 2]);
    assert_eq!(elements(&a.subview(0, 1)), vec![2, 3]);
    assert_eq!(elements(&a.subview(1, 1)), vec![1, 3, 5]);
    let mut b = range(&[2, 2]);
    {
        let mut col = b.subview_mut(1, 1);
        col.mapv_inplace(|x: i64| x + 10);
    }
    assert_eq!(elements(&b), vec![0, 11, 2, 13]);
    let mut c = range(&[2, 3]);
    c.isubview(1, 2);
    assert_eq!(c.shape(), &[2, 1]);
    assert_eq!(elements(&c), vec![2, 5]);
    let d = range(&[2, 3]).into_subview(0, 1);
    assert_eq!(elements(&d), vec![3, 4, 5]);
}

#[test]
fn axes() {
    let mut a = arr(&[1, 3], vec![1, 2, 3]);
    a.swap_axes(0, 1);
    assert_eq!(a.shape(), &[3, 1]);
    assert_eq!(elements(&a), vec![1, 2, 3]);
    let b = range(&[2, 3, 4]).reversed_axes();
    assert_eq!(b.shape(), &[4, 3, 2]);
    assert_eq!(b.strides(), &[1, 4, 12]);
    assert_eq!(get(&b, &[3, 2, 1]), 23);
    assert!(!b.is_standard_layout());
}

#[test]
fn swap_elements() {
    let mut a = range(&[2, 2]);
    a.swap(&vec![0, 0], &vec![1, 1]);
    assert_eq!(elements(&a), vec![3, 1, 2, 0]);
    a.swap(&vec![0, 1], &vec![0, 1]);
    assert_eq!(elements(&a), vec![3, 1, 2, 0]);
}

#[test]
fn layouts_and_slices() {
    let a = range(&[2, 3]);
    assert!(a.is_standard_layout());
    assert_eq!(a.as_slice().unwrap(), &[0, 1, 2, 3, 4, 5]);
    assert!(a.t().as_slice().is_none());
    let row = a.subview(0, 1);
    assert_eq!(row.as_slice().unwrap(), &[3, 4, 5]);
    let col = a.subview(1, 0);
    assert!(col.as_slice().is_none());
    let one = range(&[3, 1]);
    let one_t = one.t();
    assert!(one_t.is_standard_layout());
}

#[test]
fn map_and_mapv() {
    let a = range(&[2, 2]).reversed_axes();
    let m = a.map(|x: &i64| *x >= 1);
    assert_eq!(m.shape(), &[2, 2]);
    assert_eq!(*m.get(&vec![0, 0]).unwrap(), false);
    assert_eq!(*m.get(&vec![1, 0]).unwrap(), true);
    let v = a.mapv(|x: i64| x * 2);
    assert_eq!(elements(&v), vec![0, 4, 2, 6]);
    let w = range(&[3]).mapv_into(|x: i64| x - 1);
    assert_eq!(elements(&w), vec![-1, 0, 1]);
}

#[test]
fn mutable_view_writes_through() {
    let mut a = range(&[2, 3]);
    {
        let mut v = a.view_mut();
        assert_eq!(v.ownership(), Ownership::ViewMut);
        v.assign_scalar(&4);
    }
    assert_eq!(elements(&a), vec![4; 6]);
    {
        let mut d = a.diag_mut();
        d.assign_scalar(&0);
    }
    assert_eq!(elements(&a), vec![0, 4, 4, 4, 0, 4]);
    let mut s = range(&[2, 2]).into_shared();
    {
        let mut v = s.slice_mut(&vec![Si(0, None, -1), Si(0, None, 1)]);
        v.assign(&arr(&[2], vec![8, 9]));
    }
    assert_eq!(elements(&s), vec![8, 9, 8, 9]);
}

#[test]
fn fold_along_axis() {
    let a = range(&[2, 3]);
    let rows = a.fold_axis(1, 0, |acc: i64, x: i64| acc + x);
    assert_eq!(rows.shape(), &[2]);
    assert_eq!(elements(&rows), vec![3, 12]);
    let cols = a.fold_axis(0, 1, |acc: i64, x: i64| acc * (x + 1));
    assert_eq!(elements(&cols), vec![4, 10, 18]);
    let firsts = a.fold_axis(1, -1, |acc: i64, x: i64| if acc < 0 { x } else { acc });
    assert_eq!(elements(&firsts), vec![0, 3]);
}

#[test]
fn filled_arrays() {
    let a: ArrayBase<'static, i64> = ArrayBase::from_elem(vec![2, 0, 3], 5);
    assert_eq!(a.len(), 0);
    assert_eq!(elements(&a), Vec::<i64>::new());
    let b: ArrayBase<'static, i64> = ArrayBase::from_elem(vec![2, 2], 5);
    assert_eq!(elements(&b), vec![5; 4]);
    let c = ArrayBase::from_vec(vec![1i64, 2, 3]);
    assert_eq!(c.shape(), &[3]);
    assert_eq!(c.dim(), vec![3]);
}

#[test]
fn contiguity() {
    let a = range(&[2, 3]);
    assert!(a.is_contiguous());
    assert!(a.t().is_contiguous());
    assert_eq!(a.t().as_slice_memory_order().unwrap(), &[0, 1, 2, 3, 4, 5]);
    let p = range(&[2, 3, 4]);
    let mut q = p.view();
    q.swap_axes(0, 2);
    q.swap_axes(1, 2);
    assert!(!q.is_standard_layout());
    assert!(q.is_contiguous());
    assert_eq!(q.as_slice_memory_order().unwrap().len(), 24);
    let s = a.slice(&vec![Si(0, None, 1), Si(0, None, 2)]);
    assert!(!s.is_contiguous());
    assert!(s.as_slice_memory_order().is_none());
    let r = a.slice(&vec![Si(0, None, -1), Si(0, None, 1)]);
    assert!(!r.is_contiguous());
    let b = ArrayBase::from_vec(vec![5i64]);
    let bb = b.broadcast(vec![3, 2]).unwrap();
    assert!(!bb.is_contiguous());
}

#[test]
fn element_references() {
    let mut a = range(&[2, 2]).into_shared();
    let other = a.to_shared();
    *a.get_mut(&vec![1, 0]).unwrap() = 40;
    assert!(a.get_mut(&vec![2, 0]).is_none());
    assert_eq!(elements(&a), vec![0, 1, 40, 3]);
    assert_eq!(elements(&other), vec![0, 1, 2, 3]);
    *a.uget_mut(&vec![0, 1]) += 10;
    assert_eq!(elements(&a), vec![0, 11, 40, 3]);
    let mut v = range(&[3]);
    {
        let mut w = v.view_mut();
        *w.get_mut(&vec![2]).unwrap() = -1;
    }
    assert_eq!(elements(&v), vec![0, 1, -1]);
}

#[test]
fn listings() {
    let a = range(&[2, 3]).reversed_axes();
    assert_eq!(a.iter(), vec![0, 3, 1, 4, 2, 5]);
    let ix = a.indexed_iter();
    assert_eq!(ix.len(), 6);
    assert_eq!(ix[1], (vec![0, 1], 3));
    assert_eq!(ix[5], (vec![2, 1], 5));

    let b = range(&[2, 2, 3]);
    let outer = b.outer_iter();
    assert_eq!(outer.len(), 2);
    assert_eq!(elements(&outer[0]), vec![0, 1, 2, 3, 4, 5]);
    assert_eq!(elements(&outer[1]), vec![6, 7, 8, 9, 10, 11]);
    let along2 = b.axis_iter(2);
    assert_eq!(along2.len(), 3);
    assert_eq!(along2[1].shape(), &[2, 2]);
    assert_eq!(elements(&along2[1]), vec![1, 4, 7, 10]);
}

#[test]
fn chunks_along_axis() {
    let a = range(&[2, 7, 2]);
    let chunks = a.axis_chunks_iter(1, 2);
    assert_eq!(chunks.len(), 4);
    assert_eq!(chunks[0].shape(), &[2, 2, 2]);
    assert_eq!(elements(&chunks[0]), vec![0, 1, 2, 3, 14, 15, 16, 17]);
    assert_eq!(chunks[3].shape(), &[2, 1, 2]);
    assert_eq!(elements(&chunks[3]), vec![12, 13, 26, 27]);
    let whole = a.axis_chunks_iter(0, 5);
    assert_eq!(whole.len(), 1);
    assert_eq!(whole[0].shape(), &[2, 7, 2]);
}

#[test]
fn inner_rows() {
    let a = range(&[2, 2, 3]);
    let rows = a.inner_iter();
    assert_eq!(rows.len(), 4);
    let sums: Vec<i64> = rows.iter().map(|r| r.fold(0, |s: i64, x: i64| s + x)).collect();
    assert_eq!(sums, vec![3, 12, 21, 30]);
    let t = a.t();
    let trows = t.inner_iter();
    assert_eq!(trows.len(), 6);
    assert_eq!(elements(&trows[1]), vec![3, 9]);
    let one = range(&[4]);
    let orows = one.inner_iter();
    assert_eq!(orows.len(), 1);
    assert_eq!(elements(&orows[0]), vec![0, 1, 2, 3]);
}

#[test]
fn visit_every_element() {
    for a in [range(&[2, 3]), range(&[2, 3]).reversed_axes(), arr(&[], vec![7])] {
        let mut seen = Vec::new();
        a.visit(|x: &i64| seen.push(*x));
        seen.sort();
        let mut expected = elements(&a);
        expected.sort();
        assert_eq!(seen, expected);
    }
    let b = range(&[3, 4]);
    let s = b.slice(&vec![Si(0, None, -1), Si(0, None, 2)]);
    let mut total = 0;
    s.visit(|x: &i64| total += *x);
    assert_eq!(total, 0 + 2 + 4 + 6 + 8 + 10);
}

#[test]
fn copies_keep_contiguous_strides() {
    let a = range(&[2, 7]);
    let s = a.slice(&vec![Si(0, Some(1), 1), Si(0, Some(3), 1)]);
    assert_eq!(s.strides(), &[7, 1]);
    assert!(s.as_slice_memory_order().is_some());
    let o = s.to_owned();
    assert_eq!(o.strides(), &[7, 1]);
    assert_eq!(elements(&o), vec![0, 1, 2]);
    let t = range(&[2, 3]).reversed_axes();
    let to = t.to_owned();
    assert_eq!(to.strides(), &[1, 3]);
    assert_eq!(elements(&to), vec![0, 3, 1, 4, 2, 5]);
    let tm = t.map(|x: &i64| *x * 10);
    assert_eq!(tm.strides(), &[1, 3]);
    assert_eq!(elements(&tm), vec![0, 30, 10, 40, 20, 50]);
    let whole = range(&[2, 4]);
    let gap = whole.slice(&vec![Si(0, None, 1), Si(0, None, 2)]);
    let go = gap.to_owned();
    assert_eq!(go.strides(), &[2, 1]);
    assert_eq!(elements(&go), vec![0, 2, 4, 6]);
}

#[test]
fn shared_stays_shared_when_written() {
    let mut a = range(&[2, 2]).into_shared();
    let b = a.to_shared();
    *a.get_mut(&vec![0, 0]).unwrap() = 9;
    assert_eq!(a.ownership(), Ownership::Shared);
    assert_eq!(elements(&a), vec![9, 1, 2, 3]);
    assert_eq!(elements(&b), vec![0, 1, 2, 3]);
    {
        let mut v = a.view_mut();
        v.assign_scalar(&1);
    }
    assert_eq!(a.ownership(), Ownership::Shared);
    assert_eq!(elements(&a), vec![1; 4]);
    assert_eq!(elements(&b), vec![0, 1, 2, 3]);
}

#[test]
fn mutable_slices() {
    let mut a = range(&[2, 3]);
    {
        let s = a.as_slice_mut().unwrap();
        s[4] = 40;
    }
    assert_eq!(elements(&a), vec![0, 1, 2, 3, 40, 5]);
    let mut t = range(&[3, 2]).reversed_axes();
    assert!(t.as_slice_mut().is_none());
    {
        let s = t.as_slice_memory_order_mut().unwrap();
        s[1] = 10;
    }
    assert_eq!(elements(&t), vec![0, 2, 4, 10, 3, 5]);
    let mut shared = range(&[3]).into_shared();
    let keep = shared.to_shared();
    shared.as_slice_mut().unwrap()[0] = 7;
    assert_eq!(elements(&shared), vec![7, 1, 2]);
    assert_eq!(elements(&keep), vec![0, 1, 2]);
    let mut gap = range(&[4]);
    gap.islice(&vec![Si(0, None, 2)]);
    assert!(gap.as_slice_memory_order_mut().is_none());
}

#[test]
fn unique_buffer_is_kept() {
    let mut a = range(&[2, 2]).into_shared();
    a.ensure_unique();
    assert_eq!(a.ownership(), Ownership::Shared);
    let b = a.to_shared();
    assert!(a.is_shared_with(&b));
    a.ensure_unique();
    assert!(!a.is_shared_with(&b));
    assert_eq!(elements(&a), elements(&b));
}
