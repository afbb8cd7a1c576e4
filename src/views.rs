//! Subviews: slicing, fixing one axis, the diagonal, and reordering axes.
//! None of these moves an element; each rewrites the base, extents and
//! strides of an array.
use vstd::prelude::*;
use crate::array::{ArrayBase, Ownership};
use crate::shape::{
    ravel, sliced_strides, strides_are, zeros, diag_index, lemma_offset_diag, lemma_offset_insert, lemma_offset_reverse, lemma_offset_swap,
    lemma_offset_unit, lemma_size_pos, stride_sum, unit_index, ix, lemma_fits_shrink, lemma_offset_linear, lemma_slice_axis, lemma_slice_injective, offset,
    size, sliced_dims, sliced_source, slices_ok, slice_end, slice_len, slice_ok, slice_source,
    slice_start, valid_index, Si,
};

verus! {

impl<'a, A: Copy> ArrayBase<'a, A> {
    /// Slices every axis in place. Panics are ruled out by the requirement
    /// that every slice fits its axis and has a nonzero step.
    pub fn islice(&mut self, indexes: &Vec<Si>)
        requires
            old(self).wf(),
            slices_ok(old(self).dims(), indexes@),
        ensures
            final(self).wf(),
            final(self).mode() == old(self).mode(),
            final(self).buffer() == old(self).buffer(),
            final(self).dims() == sliced_dims(old(self).dims(), indexes@),
            final(self).lender() == old(self).lender(),
            strides_are(final(self).steps(), sliced_strides(old(self).steps(), indexes@)),
            final(self).count() > 0 ==> final(self).base() == old(self).addr(
                sliced_source(old(self).dims(), indexes@, zeros(old(self).dims().len())),
            ),
            final(self).count() == 0 ==> final(self).base() == old(self).base(),
            forall|idx: Seq<int>|
                valid_index(final(self).dims(), idx) ==> #[trigger] final(self).addr(idx) == old(self).addr(
                    sliced_source(old(self).dims(), indexes@, idx),
                ),
            forall|idx: Seq<int>|
                valid_index(final(self).dims(), idx) ==> #[trigger] final(self).at(idx) == old(self).at(
                    sliced_source(old(self).dims(), indexes@, idx),
                ),
    {
        let ghost a0 = *self;
        let dims = self.dim();
        let strides = self.strides();
        let n = dims.len();
        let mut nd: Vec<usize> = Vec::new();
        let mut ns: Vec<isize> = Vec::new();
        let mut src0: Vec<usize> = Vec::new();
        let mut nonempty = true;
        while nd.len() < n
            invariant
                a0.wf(),
                n == dims.len(),
                dims@ == a0.dims(),
                strides@ == a0.steps(),
                slices_ok(a0.dims(), indexes@),
                nd.len() <= n,
                ns.len() == nd.len(),
                src0.len() == nd.len(),
                nonempty ==> (forall|q: int| 0 <= q < nd.len() ==> #[trigger] nd@[q] >= 1),
                !nonempty ==> (exists|q: int| 0 <= q < nd.len() && #[trigger] nd@[q] == 0),
                forall|q: int| 0 <= q < nd.len() ==> #[trigger] nd@[q] == sliced_dims(a0.dims(), indexes@)[q],
                forall|q: int|
                    0 <= q < nd.len() && nd@[q] >= 1 ==> #[trigger] src0@[q] as int == slice_source(
                        a0.dims()[q] as int,
                        indexes@[q],
                        0,
                    ),
                forall|q: int|
                    0 <= q < nd.len() ==> #[trigger] ns@[q] as int == crate::shape::scaled_stride(
                        a0.steps()[q],
                        indexes@[q].2,
                    ),
            decreases n - nd.len(),
        {
            let k = nd.len();
            proof {
                a0.lemma_extent_fits(k as int);
            }
            let m = dims[k];
            let mi = m as isize;
            let si = indexes[k];
            assert(slice_ok(m as int, si));
            let b1: isize = if si.0 < 0 { mi + si.0 } else { si.0 };
            let e0: isize = match si.1 {
                Some(e) => e,
                None => mi,
            };
            let e: isize = if e0 < 0 { mi + e0 } else { e0 };
            let e1: isize = if e < b1 { b1 } else { e };
            assert(b1 as int == slice_start(m as int, si));
            assert(e1 as int == slice_end(m as int, si));
            let l = (e1 - b1) as usize;
            let a: usize = if si.2 < 0 { ((-(si.2 + 1)) as usize) + 1 } else { si.2 as usize };
            let ext = (l + a - 1) / a;
            assert(ext as int == slice_len(m as int, si));
            let first: usize = if si.2 > 0 { b1 as usize } else if l > 0 { (e1 - 1) as usize } else { 0 };
            if ext >= 1 {
                proof {
                    lemma_slice_axis(m as int, si, 0);
                }
            } else {
                nonempty = false;
            }
            let st: isize = match strides[k].checked_mul(si.2) {
                Some(p) => p,
                None => 0,
            };
            let ghost nd_before = nd@;
            nd.push(ext);
            ns.push(st);
            src0.push(first);
            proof {
                assert(nd@[k as int] == sliced_dims(a0.dims(), indexes@)[k as int]);
                if ext == 0 {
                    assert(nd@[k as int] == 0);
                }
                if !nonempty && ext >= 1 {
                    let q0 = choose|q: int| 0 <= q < k && #[trigger] nd_before[q] == 0;
                    assert(nd@[q0] == 0);
                }
            }
        }
        proof {
            assert(nd@ =~= sliced_dims(a0.dims(), indexes@));
            assert forall|k: int| 0 <= k < nd.len() implies #[trigger] nd@[k] <= a0.dims()[k] by {
                assert(slice_ok(a0.dims()[k] as int, indexes@[k]));
                if nd@[k] >= 1 {
                    lemma_slice_axis(a0.dims()[k] as int, indexes@[k], 0);
                } else {
                    assert(nd@[k] == 0);
                }
            }
            lemma_fits_shrink(nd@, a0.dims());
        }
        if nonempty {
            proof {
                assert(valid_index(a0.dims(), ix(src0@))) by {
                    assert forall|q: int| 0 <= q < src0.len() implies 0 <= #[trigger] ix(src0@)[q] < a0.dims()[q] by {
                        assert(nd@[q] >= 1);
                        lemma_slice_axis(a0.dims()[q] as int, indexes@[q], 0);
                    }
                }
            }
            let p = self.position(&src0, Ghost(a0.buffer().len() as int));
            self.set_layout(p, nd, ns);
            proof {
                let s0 = ix(src0@);
                let z = zeros(n as nat);
                assert(s0 =~= sliced_source(a0.dims(), indexes@, z)) by {
                    assert forall|q: int| 0 <= q < n implies #[trigger] s0[q] == sliced_source(a0.dims(), indexes@, z)[q] by {
                        assert(nd@[q] >= 1);
                        assert(z[q] == 0);
                    }
                }
                assert(valid_index(self.dims(), z)) by {
                    assert forall|q: int| 0 <= q < n implies 0 <= #[trigger] z[q] < self.dims()[q] by {
                        assert(nd@[q] >= 1);
                    }
                }
                crate::shape::lemma_ravel_bounds(self.dims(), z);
                assert forall|idx: Seq<int>| valid_index(self.dims(), idx) implies {
                    &&& valid_index(a0.dims(), sliced_source(a0.dims(), indexes@, idx))
                    &&& #[trigger] self.addr(idx) == a0.addr(sliced_source(a0.dims(), indexes@, idx))
                    &&& 0 <= self.addr(idx) < self.buffer().len()
                } by {
                    let src = sliced_source(a0.dims(), indexes@, idx);
                    assert forall|q: int| 0 <= q < src.len() implies 0 <= #[trigger] src[q] < a0.dims()[q] by {
                        lemma_slice_axis(a0.dims()[q] as int, indexes@[q], idx[q]);
                    }
                    assert forall|q: int| 0 <= q < src.len() implies #[trigger] (src[q] * a0.steps()[q]) == s0[q]
                        * a0.steps()[q] + idx[q] * self.steps()[q] by {
                        let si = indexes@[q];
                        let m = a0.dims()[q] as int;
                        lemma_slice_axis(m, si, idx[q]);
                        lemma_slice_axis(m, si, 0);
                        assert(src[q] == s0[q] + idx[q] * si.2);
                        let s = a0.steps()[q] as int;
                        let st = si.2 as int;
                        let j = idx[q];
                        if j != 0 {
                            // a second position along the axis: the stride product is in range
                            let u = s0.update(q, s0[q] + st);
                            assert(valid_index(a0.dims(), u)) by {
                                lemma_slice_axis(m, si, 1);
                                assert forall|r: int| 0 <= r < u.len() implies 0 <= #[trigger] u[r] < a0.dims()[r] by {
                                    if r != q {
                                        assert(u[r] == s0[r]);
                                    }
                                }
                            }
                            crate::shape::lemma_offset_split(u, a0.steps(), q);
                            crate::shape::lemma_offset_split(s0, a0.steps(), q);
                            assert(u.take(q) =~= s0.take(q));
                            assert(u.skip(q + 1) =~= s0.skip(q + 1));
                            crate::shape::lemma_offset_split(u.skip(q), a0.steps().skip(q), 1);
                            crate::shape::lemma_offset_split(s0.skip(q), a0.steps().skip(q), 1);
                            assert(u.skip(q).skip(1) =~= s0.skip(q).skip(1));
                            assert(u.skip(q).take(1) =~= seq![s0[q] + st]);
                            assert(s0.skip(q).take(1) =~= seq![s0[q]]);
                            assert(a0.steps().skip(q).take(1) =~= seq![a0.steps()[q]]);
                            assert(offset(seq![s0[q] + st], seq![a0.steps()[q]]) == (s0[q] + st) * s);
                            assert(offset(seq![s0[q]], seq![a0.steps()[q]]) == s0[q] * s);
                            assert(0 <= a0.addr(u) < a0.buffer().len());
                            assert(0 <= a0.addr(s0) < a0.buffer().len());
                            assert(a0.addr(u) - a0.addr(s0) == st * s) by (nonlinear_arith)
                                requires
                                    a0.addr(u) - a0.addr(s0) == (s0[q] + st) * s - s0[q] * s,
                            ;
                            assert(st * s == s * st) by (nonlinear_arith);
                            assert(self.steps()[q] as int == s * st);
                        }
                        assert((s0[q] + j * st) * s == s0[q] * s + j * (s * st)) by (nonlinear_arith);
                    }
                    lemma_offset_linear(src, a0.steps(), s0, a0.steps(), idx, self.steps());
                    assert(0 <= a0.addr(src) < a0.buffer().len());
                }
                if self.mode() != Ownership::View {
                    assert forall|i: Seq<int>, j: Seq<int>|
                        valid_index(self.dims(), i) && valid_index(self.dims(), j) && #[trigger] self.addr(i)
                            == #[trigger] self.addr(j) implies i == j by {
                        let si_ = sliced_source(a0.dims(), indexes@, i);
                        let sj_ = sliced_source(a0.dims(), indexes@, j);
                        assert(si_ == sj_);
                        assert forall|q: int| 0 <= q < i.len() implies i[q] == j[q] by {
                            assert(si_[q] == sj_[q]);
                            lemma_slice_injective(a0.dims()[q] as int, indexes@[q], i[q], j[q]);
                        }
                        assert(i =~= j);
                    }
                }
            }
        } else {
            let p = self.base_pos();
            self.set_layout(p, nd, ns);
            proof {
                assert forall|idx: Seq<int>| !valid_index(self.dims(), idx) by {
                    if valid_index(self.dims(), idx) {
                        let q = choose|q: int| 0 <= q < nd.len() && nd@[q] < 1;
                        assert(0 <= idx[q] < self.dims()[q]);
                    }
                }
                if self.count() > 0 {
                    let q = choose|q: int| 0 <= q < nd.len() && #[trigger] nd@[q] == 0;
                    lemma_size_pos(self.dims(), q);
                }
            }
        }
    }

    /// A read-only view of the array sliced along every axis.
    pub fn slice<'b>(&'b self, indexes: &Vec<Si>) -> (r: ArrayBase<'b, A>)
        requires
            self.wf(),
            slices_ok(self.dims(), indexes@),
        ensures
            r.wf(),
            r.mode() == Ownership::View,
            r.buffer() == self.buffer(),
            r.dims() == sliced_dims(self.dims(), indexes@),
            strides_are(r.steps(), sliced_strides(self.steps(), indexes@)),
            r.count() > 0 ==> r.base() == self.addr(sliced_source(self.dims(), indexes@, zeros(self.dims().len()))),
            r.count() == 0 ==> r.base() == self.base(),
            forall|idx: Seq<int>|
                valid_index(r.dims(), idx) ==> #[trigger] r.addr(idx) == self.addr(sliced_source(self.dims(), indexes@, idx)),
            forall|idx: Seq<int>|
                valid_index(r.dims(), idx) ==> #[trigger] r.at(idx) == self.at(sliced_source(self.dims(), indexes@, idx)),
    {
        let mut v = self.view();
        proof {
            assert forall|idx: Seq<int>| #[trigger] v.at(idx) == self.at(idx) by {}
            assert forall|idx: Seq<int>| #[trigger] v.addr(idx) == self.addr(idx) by {}
        }
        v.islice(indexes);
        v
    }

    /// A read-write view of the array sliced along every axis.
    pub fn slice_mut<'b>(&'b mut self, indexes: &Vec<Si>) -> (r: ArrayBase<'b, A>)
        requires
            old(self).wf(),
            old(self).mode() != Ownership::View,
            slices_ok(old(self).dims(), indexes@),
        ensures
            r.wf(),
            r.mode() == Ownership::ViewMut,
            final(self).mode() == old(self).mode(),
            final(self).base() == old(self).base(),
            final(self).dims() == old(self).dims(),
            final(self).steps() == old(self).steps(),
            final(self).buffer() == (*final(r.lender()))@,
            old(self).mode() == Ownership::ViewMut ==> *final(final(self).lender()) == *final(old(self).lender()),
            r.dims() == sliced_dims(old(self).dims(), indexes@),
            r.buffer() == old(self).buffer(),
            strides_are(r.steps(), sliced_strides(old(self).steps(), indexes@)),
            r.count() > 0 ==> r.base() == old(self).addr(
                sliced_source(old(self).dims(), indexes@, zeros(old(self).dims().len())),
            ),
            r.count() == 0 ==> r.base() == old(self).base(),
            forall|idx: Seq<int>|
                valid_index(r.dims(), idx) ==> #[trigger] r.addr(idx) == old(self).addr(
                    sliced_source(old(self).dims(), indexes@, idx),
                ),
            forall|idx: Seq<int>|
                valid_index(r.dims(), idx) ==> #[trigger] r.at(idx) == old(self).at(
                    sliced_source(old(self).dims(), indexes@, idx),
                ),
    {
        let mut v = self.view_mut();
        proof {
            assert forall|idx: Seq<int>| #[trigger] v.at(idx) == old(self).at(idx) by {}
        }
        v.islice(indexes);
        v
    }
}

impl<'a, A: Copy> ArrayBase<'a, A> {
    /// The array with `axis` fixed at `index` and removed: its rank drops by one.
    pub fn into_subview(self, axis: usize, index: usize) -> (r: Self)
        requires
            self.wf(),
            axis < self.dims().len(),
            index < self.dims()[axis as int],
        ensures
            r.wf(),
            r.mode() == self.mode(),
            r.buffer() == self.buffer(),
            r.dims() == self.dims().remove(axis as int),
            r.steps() == self.steps().remove(axis as int),
            r.lender() == self.lender(),
            self.count() > 0 ==> r.base() == self.base() + index * self.steps()[axis as int],
            self.count() == 0 ==> r.base() == self.base(),
            forall|idx: Seq<int>|
                valid_index(r.dims(), idx) ==> #[trigger] r.addr(idx) == self.addr(idx.insert(axis as int, index as int)),
            forall|idx: Seq<int>|
                valid_index(r.dims(), idx) ==> #[trigger] r.at(idx) == self.at(idx.insert(axis as int, index as int)),
    {
        let ghost a0 = self;
        let n = self.len();
        let rank = self.ndim();
        let mut a = self;
        let p: usize = if n > 0 {
            let mut u: Vec<usize> = Vec::new();
            while u.len() < rank
                invariant
                    u.len() <= a0.dims().len(),
                    a0.dims().len() == rank,
                    forall|q: int| 0 <= q < u.len() ==> #[trigger] u@[q] == (if q == axis { index } else { 0 }),
                decreases rank - u.len(),
            {
                if u.len() == axis {
                    u.push(index);
                } else {
                    u.push(0);
                }
            }
            proof {
                assert(ix(u@) =~= unit_index(a0.dims().len(), axis as int, index as int));
                assert forall|q: int| 0 <= q < u.len() implies 0 <= #[trigger] ix(u@)[q] < a0.dims()[q] by {
                    lemma_size_pos(a0.dims(), q);
                }
                lemma_offset_unit(a0.steps(), axis as int, index as int);
            }
            a.position(&u, Ghost(a0.buffer().len() as int))
        } else {
            a.base_pos()
        };
        let mut dims = a.dim();
        let mut strides = crate::array::copy_vec_of_slice(a.strides());
        dims.remove(axis);
        strides.remove(axis);
        a.set_layout(p, dims, strides);
        proof {
            assert forall|idx: Seq<int>| valid_index(a.dims(), idx) implies {
                &&& valid_index(a0.dims(), idx.insert(axis as int, index as int))
                &&& #[trigger] a.addr(idx) == a0.addr(idx.insert(axis as int, index as int))
                &&& 0 <= a.addr(idx) < a.buffer().len()
            } by {
                let full = idx.insert(axis as int, index as int);
                assert forall|q: int| 0 <= q < full.len() implies 0 <= #[trigger] full[q] < a0.dims()[q] by {
                    if q < axis {
                        assert(full[q] == idx[q]);
                    } else if q > axis {
                        assert(full[q] == idx[q - 1]);
                    }
                }
                lemma_offset_insert(idx, a0.steps(), axis as int, index as int);
                crate::shape::lemma_ravel_bounds(a0.dims(), full);
                assert(0 <= a0.addr(full) < a0.buffer().len());
            }
            crate::shape::lemma_fits_remove(a0.dims(), axis as int);
            if a.mode() != Ownership::View {
                assert forall|i: Seq<int>, j: Seq<int>|
                    valid_index(a.dims(), i) && valid_index(a.dims(), j) && #[trigger] a.addr(i)
                        == #[trigger] a.addr(j) implies i == j by {
                    let fi = i.insert(axis as int, index as int);
                    let fj = j.insert(axis as int, index as int);
                    assert(fi == fj);
                    assert(i =~= fi.remove(axis as int));
                    assert(j =~= fj.remove(axis as int));
                }
            }
        }
        a
    }

    /// A read-only view with `axis` fixed at `index` and removed.
    pub fn subview<'b>(&'b self, axis: usize, index: usize) -> (r: ArrayBase<'b, A>)
        requires
            self.wf(),
            axis < self.dims().len(),
            index < self.dims()[axis as int],
        ensures
            r.wf(),
            r.mode() == Ownership::View,
            r.dims() == self.dims().remove(axis as int),
            r.steps() == self.steps().remove(axis as int),
            r.buffer() == self.buffer(),
            self.count() > 0 ==> r.base() == self.base() + index * self.steps()[axis as int],
            self.count() == 0 ==> r.base() == self.base(),
            forall|idx: Seq<int>|
                valid_index(r.dims(), idx) ==> #[trigger] r.at(idx) == self.at(idx.insert(axis as int, index as int)),
    {
        let v = self.view();
        proof {
            assert forall|idx: Seq<int>| #[trigger] v.at(idx) == self.at(idx) by {}
        }
        v.into_subview(axis, index)
    }

    /// A read-write view with `axis` fixed at `index` and removed.
    pub fn subview_mut<'b>(&'b mut self, axis: usize, index: usize) -> (r: ArrayBase<'b, A>)
        requires
            old(self).wf(),
            old(self).mode() != Ownership::View,
            axis < old(self).dims().len(),
            index < old(self).dims()[axis as int],
        ensures
            r.wf(),
            r.mode() == Ownership::ViewMut,
            final(self).mode() == old(self).mode(),
            final(self).base() == old(self).base(),
            final(self).dims() == old(self).dims(),
            final(self).steps() == old(self).steps(),
            final(self).buffer() == (*final(r.lender()))@,
            old(self).mode() == Ownership::ViewMut ==> *final(final(self).lender()) == *final(old(self).lender()),
            r.dims() == old(self).dims().remove(axis as int),
            r.steps() == old(self).steps().remove(axis as int),
            r.buffer() == old(self).buffer(),
            old(self).count() > 0 ==> r.base() == old(self).base() + index * old(self).steps()[axis as int],
            old(self).count() == 0 ==> r.base() == old(self).base(),
            forall|idx: Seq<int>|
                valid_index(r.dims(), idx) ==> #[trigger] r.addr(idx) == old(self).addr(idx.insert(axis as int, index as int)),
            forall|idx: Seq<int>|
                valid_index(r.dims(), idx) ==> #[trigger] r.at(idx) == old(self).at(idx.insert(axis as int, index as int)),
    {
        let v = self.view_mut();
        proof {
            assert forall|idx: Seq<int>| #[trigger] v.at(idx) == old(self).at(idx) by {}
        }
        v.into_subview(axis, index)
    }

    /// Fixes `axis` at `index` in place, leaving it with extent 1.
    pub fn isubview(&mut self, axis: usize, index: usize)
        requires
            old(self).wf(),
            axis < old(self).dims().len(),
            index < old(self).dims()[axis as int],
        ensures
            final(self).wf(),
            final(self).mode() == old(self).mode(),
            final(self).buffer() == old(self).buffer(),
            final(self).dims() == old(self).dims().update(axis as int, 1),
            final(self).lender() == old(self).lender(),
            forall|idx: Seq<int>|
                valid_index(final(self).dims(), idx) ==> #[trigger] final(self).at(idx) == old(self).at(
                    idx.update(axis as int, index as int),
                ),
    {
        let n = self.ndim();
        let mut sl: Vec<Si> = Vec::new();
        proof {
            old(self).lemma_extent_fits(axis as int);
        }
        while sl.len() < n
            invariant
                sl.len() <= n,
                n == old(self).dims().len(),
                old(self).wf(),
                axis < n,
                index < old(self).dims()[axis as int],
                index + 1 <= isize::MAX,
                forall|q: int|
                    0 <= q < sl.len() ==> #[trigger] sl@[q] == (if q == axis {
                        Si(index as isize, Some((index + 1) as isize), 1)
                    } else {
                        Si(0, None, 1)
                    }),
            decreases n - sl.len(),
        {
            proof {
                old(self).lemma_extent_fits(sl.len() as int);
                old(self).lemma_extent_fits(axis as int);
            }
            if sl.len() == axis {
                sl.push(Si(index as isize, Some((index + 1) as isize), 1));
            } else {
                sl.push(Si(0, None, 1));
            }
        }
        proof {
            assert forall|k: int| 0 <= k < n implies slice_ok(old(self).dims()[k] as int, #[trigger] sl@[k]) by {
                old(self).lemma_extent_fits(k);
            }
        }
        self.islice(&sl);
        proof {
            let d0 = old(self).dims();
            assert forall|k: int| 0 <= k < n implies #[trigger] sliced_dims(d0, sl@)[k] == d0.update(axis as int, 1)[k] by {
                old(self).lemma_extent_fits(k);
                let si = sl@[k];
                let m = d0[k] as int;
                if k == axis {
                    assert(si == Si(index as isize, Some((index + 1) as isize), 1));
                    assert(slice_start(m, si) == index);
                    assert(slice_end(m, si) == index + 1);
                    crate::shape::lemma_slice_len_unit(m, si);
                } else {
                    assert(si == Si(0, None, 1));
                    assert(slice_start(m, si) == 0);
                    assert(slice_end(m, si) == m);
                    crate::shape::lemma_slice_len_unit(m, si);
                }
            }
            assert(sliced_dims(d0, sl@) =~= d0.update(axis as int, 1));
            assert forall|idx: Seq<int>| valid_index(final(self).dims(), idx) implies #[trigger] sliced_source(
                d0,
                sl@,
                idx,
            ) == idx.update(axis as int, index as int) by {
                assert forall|k: int| 0 <= k < n implies #[trigger] sliced_source(d0, sl@, idx)[k] == idx.update(
                    axis as int,
                    index as int,
                )[k] by {
                    let si = sl@[k];
                    let m = d0[k] as int;
                    old(self).lemma_extent_fits(k);
                    if k == axis {
                        assert(si == Si(index as isize, Some((index + 1) as isize), 1));
                        assert(slice_start(m, si) == index);
                        assert(final(self).dims()[k] == 1);
                        assert(idx[k] == 0);
                    } else {
                        assert(si == Si(0, None, 1));
                        assert(slice_start(m, si) == 0);
                    }
                }
                assert(sliced_source(d0, sl@, idx) =~= idx.update(axis as int, index as int));
            }
        }
    }

    /// The diagonal `(0, 0, ..), (1, 1, ..), ..` as a one-dimensional array;
    /// its length is the smallest extent (1 for a zero-dimensional array).
    pub fn into_diag(self) -> (r: Self)
        requires
            self.wf(),
        ensures
            r.wf(),
            r.mode() == self.mode(),
            r.buffer() == self.buffer(),
            r.dims().len() == 1,
            r.dims()[0] == crate::shape::min_extent(self.dims()),
            r.steps().len() == 1,
            r.steps()[0] == crate::shape::diag_stride(self.steps()),
            r.base() == self.base(),
            r.lender() == self.lender(),
            crate::shape::min_extent(self.dims()) >= 2 ==> r.steps()[0] == stride_sum(self.steps()),
            forall|i: int| 0 <= i < r.dims()[0] ==> #[trigger] r.addr(seq![i]) == self.addr(diag_index(self.dims().len(), i)),
            forall|i: int| 0 <= i < r.dims()[0] ==> #[trigger] r.at(seq![i]) == self.at(diag_index(self.dims().len(), i)),
    {
        let ghost a0 = self;
        let mut a = self;
        let dims = a.dim();
        let strides = a.strides();
        let mut len: usize = 1;
        let mut first = true;
        let mut k: usize = 0;
        let mut sum: i128 = 0;
        while k < dims.len()
            invariant
                k <= dims.len(),
                dims@ == a0.dims(),
                strides@ == a0.steps(),
                dims.len() == strides.len(),
                len as int == crate::shape::min_extent(dims@.take(k as int)),
                sum as int == stride_sum(strides@.take(k as int)),
                -(k as int) * 0x8000_0000_0000_0000 <= sum <= (k as int) * 0x8000_0000_0000_0000,
            decreases dims.len() - k,
        {
            proof {
                crate::shape::lemma_min_extent_push(dims@, k as int);
                crate::shape::lemma_stride_sum_push(strides@, k as int);
            }
            if k == 0 || dims[k] < len {
                len = dims[k];
            }
            sum = sum + strides[k] as i128;
            k = k + 1;
        }
        proof {
            assert(dims@.take(dims.len() as int) =~= dims@);
            assert(strides@.take(dims.len() as int) =~= strides@);
        }
        proof {
            let n = a0.dims().len();
            if len >= 2 {
                assert(valid_index(a0.dims(), diag_index(n, 1))) by {
                    assert forall|q: int| 0 <= q < n implies 0 <= #[trigger] diag_index(n, 1)[q] < a0.dims()[q] by {
                        crate::shape::lemma_min_extent_le(a0.dims(), q);
                        assert(diag_index(n, 1)[q] == 1);
                    }
                }
                assert(valid_index(a0.dims(), diag_index(n, 0))) by {
                    assert forall|q: int| 0 <= q < n implies 0 <= #[trigger] diag_index(n, 0)[q] < a0.dims()[q] by {
                        crate::shape::lemma_min_extent_le(a0.dims(), q);
                        assert(diag_index(n, 0)[q] == 0);
                    }
                }
                lemma_offset_diag(a0.steps(), 1);
                lemma_offset_diag(a0.steps(), 0);
                assert(0 <= a0.addr(diag_index(n, 1)) < a0.buffer().len());
                assert(0 <= a0.addr(diag_index(n, 0)) < a0.buffer().len());
            }
        }
        let st: isize = if isize::MIN as i128 <= sum && sum <= isize::MAX as i128 { sum as isize } else { 0 };
        let p = a.base_pos();
        a.set_layout(p, vec![len], vec![st]);
        proof {
            let n = a0.dims().len();
            if n > 0 {
                crate::shape::lemma_min_extent_le(a0.dims(), 0);
                a0.lemma_extent_fits(0);
            }
            assert(a.dims().drop_first() =~= Seq::<usize>::empty());
            assert(crate::shape::size_nz(a.dims().drop_first()) == 1);
            let h: nat = if len == 0 { 1 } else { len as nat };
            assert(crate::shape::size_nz(a.dims()) == h * crate::shape::size_nz(a.dims().drop_first()));
            assert(h * 1 == h);
            assert forall|i: int| 0 <= i < len implies {
                &&& valid_index(a0.dims(), diag_index(n, i))
                &&& #[trigger] a.addr(seq![i]) == a0.addr(diag_index(n, i))
            } by {
                assert forall|q: int| 0 <= q < n implies 0 <= #[trigger] diag_index(n, i)[q] < a0.dims()[q] by {
                    crate::shape::lemma_min_extent_le(a0.dims(), q);
                }
                lemma_offset_diag(a0.steps(), i);
                assert(seq![i].drop_first() =~= Seq::<int>::empty());
                assert(a.steps() =~= seq![st]);
                assert(a.steps().drop_first() =~= Seq::<isize>::empty());
                assert(offset(seq![i], a.steps()) == seq![i][0] * a.steps()[0] + offset(
                    seq![i].drop_first(),
                    a.steps().drop_first(),
                ));
                assert(offset(seq![i], a.steps()) == i * st);
                if len < 2 {
                    assert(i == 0);
                }
            }
            assert forall|idx: Seq<int>| valid_index(a.dims(), idx) implies 0 <= #[trigger] a.addr(idx) < a.buffer().len() by {
                assert(idx =~= seq![idx[0]]);
                assert(a.addr(idx) == a.addr(seq![idx[0]]));
                assert(0 <= a0.addr(diag_index(n, idx[0])) < a0.buffer().len());
            }
            if a.mode() != Ownership::View {
                assert forall|i: Seq<int>, j: Seq<int>|
                    valid_index(a.dims(), i) && valid_index(a.dims(), j) && #[trigger] a.addr(i)
                        == #[trigger] a.addr(j) implies i == j by {
                    assert(i =~= seq![i[0]]);
                    assert(j =~= seq![j[0]]);
                    assert(a.addr(seq![i[0]]) == a0.addr(diag_index(n, i[0])));
                    assert(a.addr(seq![j[0]]) == a0.addr(diag_index(n, j[0])));
                    if n > 0 {
                        assert(diag_index(n, i[0])[0] == diag_index(n, j[0])[0]);
                    } else {
                        assert(len == 1);
                    }
                }
            }
        }
        a
    }
}

impl<'a, A: Copy> ArrayBase<'a, A> {
    /// A read-only view of the diagonal.
    pub fn diag<'b>(&'b self) -> (r: ArrayBase<'b, A>)
        requires
            self.wf(),
        ensures
            r.wf(),
            r.mode() == Ownership::View,
            r.dims().len() == 1,
            r.dims()[0] == crate::shape::min_extent(self.dims()),
            r.buffer() == self.buffer(),
            r.base() == self.base(),
            r.steps() == seq![crate::shape::diag_stride(self.steps()) as isize],
            forall|i: int| 0 <= i < r.dims()[0] ==> #[trigger] r.at(seq![i]) == self.at(diag_index(self.dims().len(), i)),
    {
        let v = self.view();
        proof {
            assert forall|idx: Seq<int>| #[trigger] v.at(idx) == self.at(idx) by {}
        }
        v.into_diag()
    }

    /// A read-write view of the diagonal.
    pub fn diag_mut<'b>(&'b mut self) -> (r: ArrayBase<'b, A>)
        requires
            old(self).wf(),
            old(self).mode() != Ownership::View,
        ensures
            r.wf(),
            r.mode() == Ownership::ViewMut,
            final(self).mode() == old(self).mode(),
            final(self).base() == old(self).base(),
            final(self).dims() == old(self).dims(),
            final(self).steps() == old(self).steps(),
            final(self).buffer() == (*final(r.lender()))@,
            old(self).mode() == Ownership::ViewMut ==> *final(final(self).lender()) == *final(old(self).lender()),
            r.dims().len() == 1,
            r.dims()[0] == crate::shape::min_extent(old(self).dims()),
            r.buffer() == old(self).buffer(),
            r.base() == old(self).base(),
            r.steps() == seq![crate::shape::diag_stride(old(self).steps()) as isize],
            forall|i: int| 0 <= i < r.dims()[0] ==> #[trigger] r.addr(seq![i]) == old(self).addr(diag_index(old(self).dims().len(), i)),
            forall|i: int| 0 <= i < r.dims()[0] ==> #[trigger] r.at(seq![i]) == old(self).at(diag_index(old(self).dims().len(), i)),
    {
        let v = self.view_mut();
        proof {
            assert forall|idx: Seq<int>| #[trigger] v.at(idx) == old(self).at(idx) by {}
        }
        v.into_diag()
    }

    /// Exchanges axes `ax` and `bx` (extents and strides); no element moves.
    pub fn swap_axes(&mut self, ax: usize, bx: usize)
        requires
            old(self).wf(),
            ax < old(self).dims().len(),
            bx < old(self).dims().len(),
        ensures
            final(self).wf(),
            final(self).mode() == old(self).mode(),
            final(self).buffer() == old(self).buffer(),
            final(self).dims() == old(self).dims().update(ax as int, old(self).dims()[bx as int]).update(
                bx as int,
                old(self).dims()[ax as int],
            ),
            final(self).steps() == old(self).steps().update(ax as int, old(self).steps()[bx as int]).update(
                bx as int,
                old(self).steps()[ax as int],
            ),
            final(self).base() == old(self).base(),
            final(self).lender() == old(self).lender(),
            forall|idx: Seq<int>|
                valid_index(final(self).dims(), idx) ==> #[trigger] final(self).at(idx) == old(self).at(
                    idx.update(ax as int, idx[bx as int]).update(bx as int, idx[ax as int]),
                ),
    {
        let ghost a0 = *self;
        let mut dims = self.dim();
        let mut strides = crate::array::copy_vec_of_slice(self.strides());
        let da = dims[ax];
        let db = dims[bx];
        dims.set(ax, db);
        dims.set(bx, da);
        let sa = strides[ax];
        let sb = strides[bx];
        strides.set(ax, sb);
        strides.set(bx, sa);
        let p = self.base_pos();
        self.set_layout(p, dims, strides);
        proof {
            let d0 = a0.dims();
            let s0 = a0.steps();
            let (i, j) = (ax as int, bx as int);
            assert(self.steps() =~= s0.update(i, s0[j]).update(j, s0[i]));
            let back = |idx: Seq<int>| idx.update(i, idx[j]).update(j, idx[i]);
            assert forall|idx: Seq<int>| valid_index(self.dims(), idx) implies {
                &&& valid_index(d0, back(idx))
                &&& #[trigger] self.addr(idx) == a0.addr(back(idx))
                &&& 0 <= self.addr(idx) < self.buffer().len()
            } by {
                let b = back(idx);
                assert forall|q: int| 0 <= q < b.len() implies 0 <= #[trigger] b[q] < d0[q] by {
                    if q == j {
                        assert(b[q] == idx[i]);
                    } else if q == i {
                        assert(b[q] == idx[j]);
                    } else {
                        assert(b[q] == idx[q]);
                    }
                }
                lemma_offset_swap(idx, self.steps(), i, j);
                assert(idx.update(i, idx[j]).update(j, idx[i]) == b);
                assert(self.steps().update(i, self.steps()[j]).update(j, self.steps()[i]) =~= s0);
                assert(0 <= a0.addr(b) < a0.buffer().len());
            }
            if self.mode() != Ownership::View {
                assert forall|x: Seq<int>, y: Seq<int>|
                    valid_index(self.dims(), x) && valid_index(self.dims(), y) && #[trigger] self.addr(x)
                        == #[trigger] self.addr(y) implies x == y by {
                    assert(back(x) == back(y));
                    assert(x =~= back(back(x)));
                    assert(y =~= back(back(y)));
                }
            }
            crate::shape::lemma_fits_perm_swap(d0, i, j);
        }
    }

    /// The array with its axes in reverse order; no element moves.
    pub fn reversed_axes(self) -> (r: Self)
        requires
            self.wf(),
        ensures
            r.wf(),
            r.mode() == self.mode(),
            r.buffer() == self.buffer(),
            r.dims() == self.dims().reverse(),
            r.steps() == self.steps().reverse(),
            r.base() == self.base(),
            r.lender() == self.lender(),
            forall|idx: Seq<int>| valid_index(r.dims(), idx) ==> #[trigger] r.at(idx) == self.at(idx.reverse()),
    {
        let ghost a0 = self;
        let mut a = self;
        let dims = a.dim();
        let strides = a.strides();
        let n = dims.len();
        let mut rd: Vec<usize> = Vec::new();
        let mut rs: Vec<isize> = Vec::new();
        while rd.len() < n
            invariant
                rd.len() <= n,
                rs.len() == rd.len(),
                n == dims.len(),
                n == strides.len(),
                dims@ == a0.dims(),
                strides@ == a0.steps(),
                forall|q: int| 0 <= q < rd.len() ==> #[trigger] rd@[q] == dims@[n - 1 - q],
                forall|q: int| 0 <= q < rs.len() ==> #[trigger] rs@[q] == strides@[n - 1 - q],
            decreases n - rd.len(),
        {
            let k = n - 1 - rd.len();
            rd.push(dims[k]);
            rs.push(strides[k]);
        }
        let p = a.base_pos();
        a.set_layout(p, rd, rs);
        proof {
            let d0 = a0.dims();
            let s0 = a0.steps();
            assert(a.dims() =~= d0.reverse());
            assert(a.steps() =~= s0.reverse());
            assert forall|idx: Seq<int>| valid_index(a.dims(), idx) implies {
                &&& valid_index(d0, idx.reverse())
                &&& #[trigger] a.addr(idx) == a0.addr(idx.reverse())
                &&& 0 <= a.addr(idx) < a.buffer().len()
            } by {
                let b = idx.reverse();
                assert forall|q: int| 0 <= q < b.len() implies 0 <= #[trigger] b[q] < d0[q] by {
                    assert(b[q] == idx[n - 1 - q]);
                    assert(a.dims()[n - 1 - q] == d0[q]);
                }
                lemma_offset_reverse(idx, a.steps());
                assert(a.steps().reverse() =~= s0);
                assert(0 <= a0.addr(b) < a0.buffer().len());
            }
            if a.mode() != Ownership::View {
                assert forall|x: Seq<int>, y: Seq<int>|
                    valid_index(a.dims(), x) && valid_index(a.dims(), y) && #[trigger] a.addr(x)
                        == #[trigger] a.addr(y) implies x == y by {
                    assert(x.reverse() == y.reverse());
                    assert(x =~= x.reverse().reverse());
                    assert(y =~= y.reverse().reverse());
                }
            }
            crate::shape::lemma_fits_reverse(d0);
        }
        a
    }

    /// A transposed read-only view: the axes in reverse order.
    pub fn t<'b>(&'b self) -> (r: ArrayBase<'b, A>)
        requires
            self.wf(),
        ensures
            r.wf(),
            r.mode() == Ownership::View,
            r.dims() == self.dims().reverse(),
            r.steps() == self.steps().reverse(),
            r.base() == self.base(),
            r.buffer() == self.buffer(),
            forall|idx: Seq<int>| valid_index(r.dims(), idx) ==> #[trigger] r.at(idx) == self.at(idx.reverse()),
    {
        let v = self.view();
        proof {
            assert forall|idx: Seq<int>| #[trigger] v.at(idx) == self.at(idx) by {}
        }
        v.reversed_axes()
    }
}

/// The diagonal of an `n × n` array holding `0, 1, ..., n² - 1` in
/// row-major order is `0, n + 1, 2(n + 1), ...`: `d` is what `diag` gives
/// for `a`.
pub proof fn lemma_square_range_diagonal<'a, 'b>(a: &ArrayBase<'a, i64>, d: &ArrayBase<'b, i64>, n: usize)
    requires
        a.dims() == seq![n, n],
        forall|i: int| 0 <= i < a.count() ==> #[trigger] a.flat()[i] as int == i,
        d.dims().len() == 1,
        d.dims()[0] == crate::shape::min_extent(a.dims()),
        forall|i: int| 0 <= i < d.dims()[0] ==> #[trigger] d.at(seq![i]) == a.at(diag_index(a.dims().len(), i)),
    ensures
        d.dims() == seq![n],
        forall|i: int| 0 <= i < n ==> #[trigger] d.at(seq![i]) as int == i * (n + 1),
{
    let dims = a.dims();
    assert(dims.drop_last() =~= seq![n]);
    assert(crate::shape::min_extent(dims.drop_last()) == n as int);
    assert(crate::shape::min_extent(dims) == n as int);
    assert forall|i: int| 0 <= i < n implies #[trigger] d.at(seq![i]) as int == i * (n + 1) by {
        let idx = diag_index(2, i);
        assert(idx =~= seq![i, i]);
        assert(valid_index(dims, idx));
        a.lemma_at_is_flat(idx);
        assert(dims.drop_first() =~= seq![n]);
        assert(dims.drop_first().drop_first() =~= Seq::<usize>::empty());
        assert(size(dims.drop_first().drop_first()) == 1);
        assert(size(dims.drop_first()) == n as nat * 1);
        assert(idx.drop_first() =~= seq![i]);
        assert(idx.drop_first().drop_first() =~= Seq::<int>::empty());
        let df = dims.drop_first();
        let jf = idx.drop_first();
        assert(crate::shape::ravel(df.drop_first(), jf.drop_first()) == 0);
        assert(crate::shape::ravel(df, jf) == jf[0] * size(df.drop_first()) + crate::shape::ravel(
            df.drop_first(),
            jf.drop_first(),
        ));
        assert(jf[0] == i);
        assert(crate::shape::ravel(df, jf) == i);
        assert(crate::shape::ravel(dims, idx) == i * n + i);
        assert(i * n + i == i * (n + 1)) by (nonlinear_arith);
    }
}

/// Along a stretched axis a broadcast view reads one source element: two
/// multi-indices of the target shape that agree on every axis the source
/// does not stretch read the same element. `v` is what `broadcast` gives
/// for `a` and `shape`.
pub proof fn lemma_broadcast_repeats<'a, 'b, A>(
    a: &ArrayBase<'a, A>,
    shape: Seq<usize>,
    v: &ArrayBase<'b, A>,
    i: Seq<int>,
    j: Seq<int>,
)
    requires
        crate::shape::broadcast_compatible(a.dims(), shape),
        v.dims() == shape,
        forall|idx: Seq<int>|
            valid_index(shape, idx) ==> #[trigger] v.at(idx) == a.at(crate::shape::broadcast_index(a.dims(), shape, idx)),
        valid_index(shape, i),
        valid_index(shape, j),
        forall|k: int|
            0 <= k < a.dims().len() && #[trigger] a.dims()[k] == shape[k + shape.len() - a.dims().len()] ==> i[k
                + shape.len() - a.dims().len()] == j[k + shape.len() - a.dims().len()],
    ensures
        v.at(i) == v.at(j),
{
    let bi = crate::shape::broadcast_index(a.dims(), shape, i);
    let bj = crate::shape::broadcast_index(a.dims(), shape, j);
    assert(bi =~= bj);
}

impl<'a, A: Copy> ArrayBase<'a, A> {
    /// The elements in row-major order.
    pub fn iter(&self) -> (r: Vec<A>)
        requires
            self.wf(),
        ensures
            r@ == self.flat(),
    {
        self.collect_flat()
    }

    /// Each multi-index with its element, in row-major order.
    pub fn indexed_iter(&self) -> (r: Vec<(Vec<usize>, A)>)
        requires
            self.wf(),
        ensures
            r.len() == self.count(),
            forall|i: int|
                0 <= i < r.len() ==> ix((#[trigger] r@[i]).0@) == crate::shape::unravel(self.dims(), i) && r@[i].1
                    == self.flat()[i],
    {
        let n = self.len();
        let dims = self.dim();
        let ds = crate::shape::default_strides_of(&dims);
        let mut r: Vec<(Vec<usize>, A)> = Vec::new();
        while r.len() < n
            invariant
                self.wf(),
                r.len() <= n,
                n as nat == self.count(),
                dims@ == self.dims(),
                crate::shape::strides_are(ds@, crate::shape::default_strides(self.dims())),
                forall|i: int|
                    0 <= i < r.len() ==> ix((#[trigger] r@[i]).0@) == crate::shape::unravel(self.dims(), i) && r@[i].1
                        == self.flat()[i],
            decreases n - r.len(),
        {
            let i = r.len();
            let idx = crate::shape::unravel_index(&dims, &ds, i);
            let x = *self.uget(&idx);
            r.push((idx, x));
        }
        r
    }

    /// The subviews along `axis`, in order: the `i`-th has `axis` fixed at `i`.
    pub fn axis_iter<'b>(&'b self, axis: usize) -> (r: Vec<ArrayBase<'b, A>>)
        requires
            self.wf(),
            axis < self.dims().len(),
        ensures
            r.len() == self.dims()[axis as int],
            forall|i: int|
                0 <= i < r.len() ==> {
                    &&& (#[trigger] r@[i]).wf()
                    &&& r@[i].mode() == Ownership::View
                    &&& r@[i].dims() == self.dims().remove(axis as int)
                    &&& forall|idx: Seq<int>|
                        valid_index(r@[i].dims(), idx) ==> #[trigger] r@[i].at(idx) == self.at(
                            idx.insert(axis as int, i),
                        )
                },
    {
        let n = self.dim()[axis];
        let mut r: Vec<ArrayBase<'b, A>> = Vec::new();
        while r.len() < n
            invariant
                self.wf(),
                axis < self.dims().len(),
                n == self.dims()[axis as int],
                r.len() <= n,
                forall|i: int|
                    0 <= i < r.len() ==> {
                        &&& (#[trigger] r@[i]).wf()
                        &&& r@[i].mode() == Ownership::View
                        &&& r@[i].dims() == self.dims().remove(axis as int)
                        &&& forall|idx: Seq<int>|
                            valid_index(r@[i].dims(), idx) ==> #[trigger] r@[i].at(idx) == self.at(
                                idx.insert(axis as int, i),
                            )
                    },
            decreases n - r.len(),
        {
            let v = self.subview(axis, r.len());
            r.push(v);
        }
        r
    }

    /// The subviews along the first axis, in order.
    pub fn outer_iter<'b>(&'b self) -> (r: Vec<ArrayBase<'b, A>>)
        requires
            self.wf(),
            self.dims().len() > 0,
        ensures
            r.len() == self.dims()[0],
            forall|i: int|
                0 <= i < r.len() ==> {
                    &&& (#[trigger] r@[i]).wf()
                    &&& r@[i].mode() == Ownership::View
                    &&& r@[i].dims() == self.dims().remove(0)
                    &&& forall|idx: Seq<int>|
                        valid_index(r@[i].dims(), idx) ==> #[trigger] r@[i].at(idx) == self.at(idx.insert(0, i))
                },
    {
        self.axis_iter(0)
    }
}

impl<'a, A: Copy> ArrayBase<'a, A> {
    /// The slice list that keeps `[start, end)` of `axis` and every other axis whole.
    fn chunk_slices(&self, axis: usize, start: usize, end: usize) -> (r: Vec<Si>)
        requires
            self.wf(),
            axis < self.dims().len(),
            start < end <= self.dims()[axis as int],
        ensures
            slices_ok(self.dims(), r@),
            sliced_dims(self.dims(), r@) == self.dims().update(axis as int, (end - start) as usize),
            forall|idx: Seq<int>|
                valid_index(sliced_dims(self.dims(), r@), idx) ==> #[trigger] sliced_source(self.dims(), r@, idx)
                    == idx.update(axis as int, idx[axis as int] + start),
    {
        let n = self.ndim();
        let mut sl: Vec<Si> = Vec::new();
        proof {
            self.lemma_extent_fits(axis as int);
        }
        while sl.len() < n
            invariant
                sl.len() <= n,
                n == self.dims().len(),
                self.wf(),
                axis < n,
                start < end <= self.dims()[axis as int],
                end <= isize::MAX,
                forall|q: int|
                    0 <= q < sl.len() ==> #[trigger] sl@[q] == (if q == axis {
                        Si(start as isize, Some(end as isize), 1)
                    } else {
                        Si(0, None, 1)
                    }),
            decreases n - sl.len(),
        {
            if sl.len() == axis {
                sl.push(Si(start as isize, Some(end as isize), 1));
            } else {
                sl.push(Si(0, None, 1));
            }
        }
        proof {
            let d0 = self.dims();
            assert forall|k: int| 0 <= k < n implies slice_ok(d0[k] as int, #[trigger] sl@[k]) by {
                self.lemma_extent_fits(k);
            }
            assert forall|k: int| 0 <= k < n implies #[trigger] sliced_dims(d0, sl@)[k] == d0.update(
                axis as int,
                (end - start) as usize,
            )[k] by {
                self.lemma_extent_fits(k);
                let si = sl@[k];
                let m = d0[k] as int;
                if k == axis {
                    assert(slice_start(m, si) == start);
                    assert(slice_end(m, si) == end);
                    crate::shape::lemma_slice_len_unit(m, si);
                } else {
                    assert(slice_start(m, si) == 0);
                    assert(slice_end(m, si) == m);
                    crate::shape::lemma_slice_len_unit(m, si);
                }
            }
            assert(sliced_dims(d0, sl@) =~= d0.update(axis as int, (end - start) as usize));
            assert forall|idx: Seq<int>| valid_index(sliced_dims(d0, sl@), idx) implies #[trigger] sliced_source(
                d0,
                sl@,
                idx,
            ) == idx.update(axis as int, idx[axis as int] + start) by {
                assert forall|k: int| 0 <= k < n implies #[trigger] sliced_source(d0, sl@, idx)[k] == idx.update(
                    axis as int,
                    idx[axis as int] + start,
                )[k] by {
                    let si = sl@[k];
                    let m = d0[k] as int;
                    self.lemma_extent_fits(k);
                    if k == axis {
                        assert(slice_start(m, si) == start);
                    } else {
                        assert(slice_start(m, si) == 0);
                    }
                }
                assert(sliced_source(d0, sl@, idx) =~= idx.update(axis as int, idx[axis as int] + start));
            }
        }
        sl
    }

    /// Views of `axis` cut into pieces of `size` positions along it, in
    /// order; the last piece is shorter when `size` does not divide the
    /// extent.
    pub fn axis_chunks_iter<'b>(&'b self, axis: usize, size: usize) -> (r: Vec<ArrayBase<'b, A>>)
        requires
            self.wf(),
            axis < self.dims().len(),
            size > 0,
        ensures
            r.len() * size >= self.dims()[axis as int],
            r.len() == 0 || (r.len() - 1) * size < self.dims()[axis as int],
            forall|c: int|
                0 <= c < r.len() ==> {
                    &&& (#[trigger] r@[c]).wf()
                    &&& r@[c].mode() == Ownership::View
                    &&& r@[c].dims() == self.dims().update(axis as int, r@[c].dims()[axis as int])
                    &&& r@[c].dims()[axis as int] == (if self.dims()[axis as int] - c * size < size {
                        self.dims()[axis as int] - c * size
                    } else {
                        size as int
                    })
                    &&& forall|idx: Seq<int>|
                        valid_index(r@[c].dims(), idx) ==> #[trigger] r@[c].at(idx) == self.at(
                            idx.update(axis as int, idx[axis as int] + c * size),
                        )
                },
    {
        let n = self.dim()[axis];
        let mut r: Vec<ArrayBase<'b, A>> = Vec::new();
        let mut start: usize = 0;
        assert(0 * size == 0);
        while start < n
            invariant
                self.wf(),
                axis < self.dims().len(),
                n == self.dims()[axis as int],
                size > 0,
                start <= n,
                start == n || start == r.len() * size,
                r.len() * size >= start,
                r.len() > 0 ==> (r.len() - 1) * size < n,
                forall|c: int|
                    0 <= c < r.len() ==> {
                        &&& (#[trigger] r@[c]).wf()
                        &&& r@[c].mode() == Ownership::View
                        &&& r@[c].dims() == self.dims().update(axis as int, r@[c].dims()[axis as int])
                        &&& r@[c].dims()[axis as int] == (if self.dims()[axis as int] - c * size < size {
                            self.dims()[axis as int] - c * size
                        } else {
                            size as int
                        })
                        &&& forall|idx: Seq<int>|
                            valid_index(r@[c].dims(), idx) ==> #[trigger] r@[c].at(idx) == self.at(
                                idx.update(axis as int, idx[axis as int] + c * size),
                            )
                    },
            decreases n - start,
        {
            let end: usize = if n - start > size { start + size } else { n };
            let sl = self.chunk_slices(axis, start, end);
            let v = self.slice(&sl);
            proof {
                let c = r.len() as int;
                assert(c * size == start);
            }
            let ghost c = r.len() as int;
            r.push(v);
            start = end;
            proof {
                assert((c + 1) * size == c * size + size) by (nonlinear_arith);
            }
        }
        r
    }
}

impl<'a, A: Copy> ArrayBase<'a, A> {
    /// The one-dimensional view along the last axis that starts at the
    /// multi-index `head` of the other axes.
    fn row_view<'b>(&'b self, head: &Vec<usize>) -> (r: ArrayBase<'b, A>)
        requires
            self.wf(),
            self.dims().len() > 0,
            head.len() + 1 == self.dims().len(),
            forall|k: int| 0 <= k < head.len() ==> #[trigger] head@[k] < self.dims()[k],
        ensures
            r.wf(),
            r.mode() == Ownership::View,
            r.dims() == seq![self.dims().last()],
            forall|t: Seq<int>| valid_index(r.dims(), t) ==> #[trigger] r.at(t) == self.at(ix(head@) + t),
    {
        let mut v = self.view();
        let mut k: usize = 0;
        proof {
            assert forall|t: Seq<int>| valid_index(v.dims(), t) implies #[trigger] v.at(t) == self.at(ix(head@).take(0) + t) by {
                assert(ix(head@).take(0) + t =~= t);
            }
            assert(self.dims().skip(0) =~= self.dims());
        }
        while k < head.len()
            invariant
                self.wf(),
                head.len() + 1 == self.dims().len(),
                forall|q: int| 0 <= q < head.len() ==> #[trigger] head@[q] < self.dims()[q],
                k <= head.len(),
                v.wf(),
                v.mode() == Ownership::View,
                v.dims() == self.dims().skip(k as int),
                forall|t: Seq<int>| valid_index(v.dims(), t) ==> #[trigger] v.at(t) == self.at(ix(head@).take(k as int) + t),
            decreases head.len() - k,
        {
            let x = head[k];
            let ghost before = v;
            proof {
                assert(v.dims()[0] == self.dims()[k as int]);
            }
            v = v.into_subview(0, x);
            proof {
                assert(v.dims() =~= self.dims().skip(k + 1));
                assert forall|t: Seq<int>| valid_index(v.dims(), t) implies #[trigger] v.at(t) == self.at(ix(head@).take(k + 1) + t) by {
                    let full = t.insert(0, x as int);
                    assert(valid_index(before.dims(), full)) by {
                        assert forall|q: int| 0 <= q < full.len() implies 0 <= #[trigger] full[q] < before.dims()[q] by {
                            if q > 0 {
                                assert(full[q] == t[q - 1]);
                            }
                        }
                    }
                    assert(ix(head@).take(k as int) + full =~= ix(head@).take(k + 1) + t);
                }
            }
            k = k + 1;
        }
        proof {
            let n = self.dims().len();
            assert(self.dims().skip(n - 1) =~= seq![self.dims().last()]);
            assert(ix(head@).take(head.len() as int) =~= ix(head@));
        }
        v
    }

    /// The one-dimensional views along the last axis, one for each
    /// multi-index of the other axes in row-major order.
    pub fn inner_iter<'b>(&'b self) -> (r: Vec<ArrayBase<'b, A>>)
        requires
            self.wf(),
            self.dims().len() > 0,
        ensures
            r.len() == size(self.dims().drop_last()),
            forall|q: int|
                0 <= q < r.len() ==> {
                    &&& (#[trigger] r@[q]).wf()
                    &&& r@[q].mode() == Ownership::View
                    &&& r@[q].dims() == seq![self.dims().last()]
                    &&& forall|t: Seq<int>|
                        valid_index(r@[q].dims(), t) ==> #[trigger] r@[q].at(t) == self.at(
                            crate::shape::unravel(self.dims().drop_last(), q) + t,
                        )
                },
    {
        let mut head_dims = self.dim();
        let last = head_dims.len() - 1;
        head_dims.remove(last);
        proof {
            assert(head_dims@ =~= self.dims().drop_last());
            crate::shape::lemma_fits_remove(self.dims(), last as int);
            assert(self.dims().remove(last as int) =~= self.dims().drop_last());
        }
        let rows = crate::shape::size_checked(&head_dims).unwrap();
        let ds = crate::shape::default_strides_of(&head_dims);
        let mut r: Vec<ArrayBase<'b, A>> = Vec::new();
        while r.len() < rows
            invariant
                self.wf(),
                self.dims().len() > 0,
                head_dims@ == self.dims().drop_last(),
                crate::shape::shape_fits(head_dims@),
                rows as nat == size(head_dims@),
                crate::shape::strides_are(ds@, crate::shape::default_strides(head_dims@)),
                r.len() <= rows,
                forall|q: int|
                    0 <= q < r.len() ==> {
                        &&& (#[trigger] r@[q]).wf()
                        &&& r@[q].mode() == Ownership::View
                        &&& r@[q].dims() == seq![self.dims().last()]
                        &&& forall|t: Seq<int>|
                            valid_index(r@[q].dims(), t) ==> #[trigger] r@[q].at(t) == self.at(
                                crate::shape::unravel(self.dims().drop_last(), q) + t,
                            )
                    },
            decreases rows - r.len(),
        {
            let head = crate::shape::unravel_index(&head_dims, &ds, r.len());
            proof {
                assert forall|k: int| 0 <= k < head.len() implies #[trigger] head@[k] < self.dims()[k] by {
                    assert(ix(head@)[k] == head@[k] as int);
                }
            }
            let v = self.row_view(&head);
            r.push(v);
        }
        r
    }
}

impl<'a, A: Copy> ArrayBase<'a, A> {
    /// Calls `f` on every element once, in no specified order: along the
    /// buffer when the array is contiguous, otherwise one inner row at a
    /// time. Returns the multi-indices of the elements in the order they
    /// were passed to `f`: every valid multi-index exactly once.
    pub fn visit<F: FnMut(&A)>(&self, mut f: F) -> (r: Ghost<Seq<Seq<int>>>)
        requires
            self.wf(),
            forall|x: &A| f.requires((x,)),
        ensures
            r@.len() == self.count(),
            forall|t: int| 0 <= t < r@.len() ==> valid_index(self.dims(), #[trigger] r@[t]),
            r@.no_duplicates(),
            forall|t: int| 0 <= t < r@.len() ==> #[trigger] f.ensures((&self.at(r@[t]),), ()),
    {
        let ghost f0 = f;
        match self.as_slice_memory_order() {
            Some(sl) => {
                let ghost mut rec: Seq<Seq<int>> = Seq::empty();
                proof {
                    self.lemma_contiguous_block();
                }
                let mut i: usize = 0;
                while i < sl.len()
                    invariant
                        self.wf(),
                        sl@.len() == self.count(),
                        crate::shape::contiguous_layout(self.dims(), self.steps()),
                        forall|p: int| 0 <= p < self.count() ==> #[trigger] crate::shape::offset_reached(self.dims(), self.steps(), p),
                        forall|x: &A| f.requires((x,)),
                        f == f0,
                        self.base() + self.count() <= self.buffer().len(),
                        sl@ == self.buffer().subrange(self.base(), self.base() + self.count()),
                        i <= sl.len(),
                        rec.len() == i,
                        forall|t: int| 0 <= t < i ==> valid_index(self.dims(), #[trigger] rec[t]) && offset(rec[t], self.steps()) == t,
                        forall|t: int| 0 <= t < i ==> #[trigger] f0.ensures((&self.at(rec[t]),), ()),
                    decreases sl.len() - i,
                {
                    f(&sl[i]);
                    proof {
                        assert(crate::shape::offset_reached(self.dims(), self.steps(), i as int));
                        let idx = choose|idx: Seq<int>| #[trigger] valid_index(self.dims(), idx) && offset(idx, self.steps()) == i;
                        assert(self.addr(idx) == self.base() + i);
                        assert(self.at(idx) == sl@[i as int]);
                        rec = rec.push(idx);
                    }
                    i = i + 1;
                }
                proof {
                    assert forall|t: int, u: int| 0 <= t < rec.len() && 0 <= u < rec.len() && t != u implies rec[t] != rec[u] by {
                        assert(offset(rec[t], self.steps()) == t);
                        assert(offset(rec[u], self.steps()) == u);
                    }
                }
                let ghost out = rec;
                return Ghost(out);
            },
            None => {},
        }
        if self.ndim() == 0 {
            let e: Vec<usize> = Vec::new();
            proof {
                assert(valid_index(self.dims(), ix(e@)));
                assert(ix(e@) =~= Seq::<int>::empty());
            }
            f(self.uget(&e));
            let ghost one: Seq<Seq<int>> = seq![Seq::<int>::empty()];
            proof {
                assert(self.dims() =~= Seq::<usize>::empty());
                assert(self.count() == 1);
                assert(one[0] == ix(e@));
            }
            return Ghost(one);
        }
        let rows = self.inner_iter();
        let ghost dims = self.dims();
        let ghost head = dims.drop_last();
        let ghost l = dims.last();
        proof {
            assert(dims =~= head.push(l));
            crate::shape::lemma_size_push(head, l);
        }
        let ghost mut rec: Seq<Seq<int>> = Seq::empty();
        let mut q: usize = 0;
        while q < rows.len()
            invariant
                self.wf(),
                self.dims().len() > 0,
                dims == self.dims(),
                head == dims.drop_last(),
                l == dims.last(),
                dims == head.push(l),
                rows.len() == size(head),
                forall|x: &A| f.requires((x,)),
                f == f0,
                forall|k: int|
                    0 <= k < rows.len() ==> {
                        &&& (#[trigger] rows@[k]).wf()
                        &&& rows@[k].dims() == seq![l]
                        &&& forall|t: Seq<int>|
                            valid_index(rows@[k].dims(), t) ==> #[trigger] rows@[k].at(t) == self.at(
                                crate::shape::unravel(head, k) + t,
                            )
                    },
                forall|t: int| 0 <= t < rec.len() ==> #[trigger] f0.ensures((&self.at(rec[t]),), ()),
                q <= rows.len(),
                rec.len() == q * l,
                forall|t: int| 0 <= t < rec.len() ==> valid_index(dims, #[trigger] rec[t]) && ravel(dims, rec[t]) == t,
            decreases rows.len() - q,
        {
            let row = &rows[q];
            assert(forall|t: Seq<int>| valid_index(row.dims(), t) ==> #[trigger] row.at(t) == self.at(crate::shape::unravel(head, q as int) + t));
            let ghost hq = crate::shape::unravel(head, q as int);
            proof {
                crate::shape::lemma_unravel(head, q as int);
                assert(row.dims().drop_first() =~= Seq::<usize>::empty());
                assert(size(row.dims().drop_first()) == 1);
                let dl = l as nat;
                assert(dl * 1 == dl) by (nonlinear_arith);
                assert(row.count() == l);
            }
            let n = row.len();
            let mut i: usize = 0;
            let sl_opt = row.as_slice();
            while i < n
                invariant
                    row.wf(),
                    row.dims() == seq![l],
                    n as nat == row.count(),
                    n == l,
                    forall|x: &A| f.requires((x,)),
                    f == f0,
                    sl_opt matches Some(sl) ==> sl@ == row.flat(),
                    forall|t: Seq<int>| valid_index(row.dims(), t) ==> #[trigger] row.at(t) == self.at(hq + t),
                    forall|t: int| 0 <= t < rec.len() ==> #[trigger] f0.ensures((&self.at(rec[t]), ), ()),
                    valid_index(head, hq),
                    ravel(head, hq) == q,
                    dims == head.push(l),
                    i <= n,
                    rec.len() == q * l + i,
                    forall|t: int| 0 <= t < rec.len() ==> valid_index(dims, #[trigger] rec[t]) && ravel(dims, rec[t]) == t,
                decreases n - i,
            {
                proof {
                    assert(valid_index(row.dims(), seq![i as int]));
                    assert(crate::shape::unravel(row.dims(), i as int) =~= seq![i as int]) by {
                        crate::shape::lemma_unravel(row.dims(), i as int);
                        crate::shape::lemma_ravel_injective(row.dims(), crate::shape::unravel(row.dims(), i as int), seq![i as int]);
                        assert(row.dims().drop_first() =~= Seq::<usize>::empty());
                        assert(seq![i as int].drop_first() =~= Seq::<int>::empty());
                        assert(ravel(row.dims(), seq![i as int]) == i * size(row.dims().drop_first()) + ravel(
                            row.dims().drop_first(),
                            seq![i as int].drop_first(),
                        ));
                        let ii = i as int;
                        assert(ii * 1 == ii) by (nonlinear_arith);
                    }
                    assert(hq + seq![i as int] =~= hq.push(i as int));
                }
                match sl_opt {
                    Some(sl) => {
                        f(&sl[i]);
                    },
                    None => {
                        let idx = vec![i];
                        proof {
                            assert(ix(idx@) =~= seq![i as int]);
                        }
                        f(row.uget(&idx));
                    },
                }
                proof {
                    let e = hq.push(i as int);
                    crate::shape::lemma_ravel_push(head, hq, l, i as int);
                    assert(valid_index(dims, e)) by {
                        assert forall|k: int| 0 <= k < e.len() implies 0 <= #[trigger] e[k] < dims[k] by {
                            if k < hq.len() {
                                assert(e[k] == hq[k]);
                            }
                        }
                    }
                    assert(ravel(dims, e) == q * l + i);
                    rec = rec.push(e);
                }
                i = i + 1;
            }
            proof {
                assert((q + 1) * l == q * l + l) by (nonlinear_arith);
            }
            q = q + 1;
        }
        proof {
            assert forall|t: int, u: int| 0 <= t < rec.len() && 0 <= u < rec.len() && t != u implies rec[t] != rec[u] by {
                assert(ravel(dims, rec[t]) == t);
                assert(ravel(dims, rec[u]) == u);
            }
            assert(size(head) * l == size(dims));
        }
        let ghost out = rec;
        Ghost(out)
    }
}

} // verus!
