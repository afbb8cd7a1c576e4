//! Elementwise traversal: writing a function of each element (and of the
//! matching element of a second, possibly broadcast, array) back in place.
//! Dense operands are walked along the buffer, others one multi-index at a
//! time; the result is the same either way.
use vstd::prelude::*;
use crate::array::{ArrayBase, Ownership};
use crate::shape::{
    broadcast_compatible, broadcast_index, default_strides_of, ix, lemma_ravel_injective,
    lemma_unravel, ravel, standard_layout, unravel, unravel_index, valid_index,
};

verus! {

/// After the first `i` elements in row-major order of `a` have been
/// written into `buf`, the value at each of them satisfies `written` for
/// its multi-index, and the others are untouched.
pub open spec fn write_progress<'a, A>(
    a: &ArrayBase<'a, A>,
    written: spec_fn(Seq<int>, A) -> bool,
    buf: Seq<A>,
    i: int,
) -> bool {
    &&& buf.len() == a.buffer().len()
    &&& forall|idx: Seq<int>|
        #![trigger a.addr(idx)]
        valid_index(a.dims(), idx) ==> {
            &&& ravel(a.dims(), idx) < i ==> written(idx, buf[a.addr(idx)])
            &&& ravel(a.dims(), idx) >= i ==> buf[a.addr(idx)] == a.buffer()[a.addr(idx)]
        }
    &&& forall|p: int| 0 <= p < buf.len() && !a.addressed(p) ==> #[trigger] buf[p] == a.buffer()[p]
}

pub proof fn lemma_write_start<'a, A>(a: &ArrayBase<'a, A>, written: spec_fn(Seq<int>, A) -> bool)
    requires
        a.wf(),
    ensures
        write_progress(a, written, a.buffer(), 0),
{
    assert forall|idx: Seq<int>| #![trigger a.addr(idx)] valid_index(a.dims(), idx) implies ravel(a.dims(), idx) >= 0 by {
        crate::shape::lemma_ravel_bounds(a.dims(), idx);
    }
}

/// The next element in row-major order is still untouched.
pub proof fn lemma_write_next<'a, A>(a: &ArrayBase<'a, A>, written: spec_fn(Seq<int>, A) -> bool, buf: Seq<A>, i: int)
    requires
        a.wf(),
        0 <= i < a.count(),
        write_progress(a, written, buf, i),
    ensures
        valid_index(a.dims(), unravel(a.dims(), i)),
        0 <= a.addr(unravel(a.dims(), i)) < buf.len(),
        buf[a.addr(unravel(a.dims(), i))] == a.at(unravel(a.dims(), i)),
{
    lemma_unravel(a.dims(), i);
    let u = unravel(a.dims(), i);
    assert(0 <= a.addr(u) < buf.len());
}

pub proof fn lemma_write_step<'a, A>(
    a: &ArrayBase<'a, A>,
    written: spec_fn(Seq<int>, A) -> bool,
    buf: Seq<A>,
    i: int,
    val: A,
)
    requires
        a.wf(),
        a.mode() != Ownership::View,
        0 <= i < a.count(),
        write_progress(a, written, buf, i),
        written(unravel(a.dims(), i), val),
    ensures
        write_progress(a, written, buf.update(a.addr(unravel(a.dims(), i)), val), i + 1),
        0 <= a.addr(unravel(a.dims(), i)) < buf.len(),
{
    let u = unravel(a.dims(), i);
    lemma_unravel(a.dims(), i);
    let p = a.addr(u);
    assert(0 <= p < buf.len());
    let nb = buf.update(p, val);
    assert forall|idx: Seq<int>| #![trigger a.addr(idx)] valid_index(a.dims(), idx) implies {
        &&& ravel(a.dims(), idx) < i + 1 ==> written(idx, nb[a.addr(idx)])
        &&& ravel(a.dims(), idx) >= i + 1 ==> nb[a.addr(idx)] == a.buffer()[a.addr(idx)]
    } by {
        if ravel(a.dims(), idx) == i {
            lemma_ravel_injective(a.dims(), idx, u);
        } else {
            assert(idx != u);
            assert(a.addr(idx) != p);
        }
    }
    assert(valid_index(a.dims(), u));
    assert forall|q: int| 0 <= q < nb.len() && !a.addressed(q) implies #[trigger] nb[q] == a.buffer()[q] by {
        if q == p {
            assert(a.addressed(q));
        }
    }
}

/// The end of the walk: every element has been written.
pub proof fn lemma_write_done<'a, A>(
    a: &ArrayBase<'a, A>,
    written: spec_fn(Seq<int>, A) -> bool,
    buf: Seq<A>,
    r: &ArrayBase<'a, A>,
)
    requires
        a.wf(),
        write_progress(a, written, buf, a.count() as int),
        r.buffer() == buf,
        r.base() == a.base(),
        r.dims() == a.dims(),
        r.steps() == a.steps(),
        r.mode() == a.mode(),
        r.mode() == Ownership::ViewMut ==> r.buffer() == r.lender()@,
    ensures
        r.wf(),
        a.writes_within(r),
        forall|idx: Seq<int>| valid_index(a.dims(), idx) ==> written(idx, #[trigger] r.at(idx)),
{
    assert forall|idx: Seq<int>| valid_index(a.dims(), idx) implies written(idx, #[trigger] r.at(idx)) by {
        crate::shape::lemma_ravel_bounds(a.dims(), idx);
        assert(r.addr(idx) == a.addr(idx));
    }
    assert forall|idx: Seq<int>| valid_index(r.dims(), idx) implies 0 <= #[trigger] r.addr(idx) < r.buffer().len() by {
        assert(r.addr(idx) == a.addr(idx));
    }
    if r.mode() != Ownership::View {
        assert forall|i: Seq<int>, j: Seq<int>|
            valid_index(r.dims(), i) && valid_index(r.dims(), j) && #[trigger] r.addr(i) == #[trigger] r.addr(j) implies i == j by {
            assert(r.addr(i) == a.addr(i));
            assert(r.addr(j) == a.addr(j));
        }
    }
}

/// What writing `f(x, g(idx))` over each element `x` at `idx` leaves there.
pub open spec fn zip_written<'a, A, B, F: Fn(A, B) -> A>(
    a: &ArrayBase<'a, A>,
    g: spec_fn(Seq<int>) -> B,
    f: F,
) -> spec_fn(Seq<int>, A) -> bool {
    |idx: Seq<int>, v: A| f.ensures((a.at(idx), g(idx)), v)
}

/// `accs` are the running results of folding `f` over `s` from `init`: it
/// starts at `init` and each step applies `f` to the previous result and
/// the next element.
pub open spec fn fold_chain<A, B, F: Fn(B, A) -> B>(f: F, init: B, s: Seq<A>, accs: Seq<B>) -> bool {
    &&& accs.len() == s.len() + 1
    &&& accs[0] == init
    &&& forall|k: int| 0 <= k < s.len() ==> f.ensures((accs[k], s[k]), #[trigger] accs[k + 1])
}

/// `r` is what folding `f` over `s` from `init` gives, one element at a
/// time from the front.
pub open spec fn folds_to<A, B, F: Fn(B, A) -> B>(f: F, init: B, s: Seq<A>, r: B) -> bool {
    exists|accs: Seq<B>| #[trigger] fold_chain(f, init, s, accs) && accs.last() == r
}

/// A fold gives the same results over any two arrays with the same shape
/// and the same element at every multi-index, whatever their layouts
/// (contiguous, transposed, sliced, broadcast), and so whichever way the
/// traversal walks them.
pub proof fn lemma_fold_layout_independent<'a, 'b, A, B, F: Fn(B, A) -> B>(
    x: &ArrayBase<'a, A>,
    y: &ArrayBase<'b, A>,
    f: F,
    init: B,
    r: B,
)
    requires
        x.same_elements(y),
    ensures
        folds_to(f, init, x.flat(), r) == folds_to(f, init, y.flat(), r),
{
    x.lemma_same_elements_same_flat(y);
}

/// Elementwise writing with a function that gives one result for each
/// pair of arguments ends with the same elements whatever the layouts of
/// the operands (and so whichever traversal ran): `x1`, `x2` hold the same
/// elements, and so do `y1`, `y2`; `z1`, `z2` are what `zip_mut_with` leaves
/// in `x1`, `x2` with `y1`, `y2`.
pub proof fn lemma_zip_layout_independent<'a, 'b, 'c, 'd, 'e, 'g, A, B, F: Fn(A, B) -> A>(
    x1: &ArrayBase<'a, A>,
    x2: &ArrayBase<'b, A>,
    y1: &ArrayBase<'c, B>,
    y2: &ArrayBase<'d, B>,
    z1: &ArrayBase<'e, A>,
    z2: &ArrayBase<'g, A>,
    f: F,
)
    requires
        x1.same_elements(x2),
        y1.same_elements(y2),
        y1.wf(),
        broadcast_compatible(y1.dims(), x1.dims()),
        forall|a: A, b: B, v: A, w: A| f.ensures((a, b), v) && f.ensures((a, b), w) ==> v == w,
        z1.dims() == x1.dims(),
        z2.dims() == x2.dims(),
        forall|idx: Seq<int>|
            valid_index(x1.dims(), idx) ==> f.ensures(
                (x1.at(idx), y1.at(broadcast_index(y1.dims(), x1.dims(), idx))),
                #[trigger] z1.at(idx),
            ),
        forall|idx: Seq<int>|
            valid_index(x2.dims(), idx) ==> f.ensures(
                (x2.at(idx), y2.at(broadcast_index(y2.dims(), x2.dims(), idx))),
                #[trigger] z2.at(idx),
            ),
    ensures
        z1.same_elements(z2),
        z1.flat() == z2.flat(),
{
    assert forall|idx: Seq<int>| valid_index(z1.dims(), idx) implies #[trigger] z1.at(idx) == z2.at(idx) by {
        let b = broadcast_index(y1.dims(), x1.dims(), idx);
        crate::shape::lemma_broadcast_offset(y1.dims(), x1.dims(), y1.steps(), idx);
        assert(x1.at(idx) == x2.at(idx));
        assert(y1.at(b) == y2.at(b));
        assert(f.ensures((x1.at(idx), y1.at(b)), z1.at(idx)));
        assert(f.ensures((x1.at(idx), y1.at(b)), z2.at(idx)));
    }
    z1.lemma_same_elements_same_flat(z2);
}

impl<'a, A: Copy> ArrayBase<'a, A> {
    /// The element at row-major position `i`, read from the buffer directly
    /// when the layout is standard.
    fn flat_elem(&self, dense: bool, dims: &Vec<usize>, ds: &Vec<isize>, i: usize) -> (r: A)
        requires
            self.wf(),
            dense ==> standard_layout(self.dims(), self.steps()),
            dims@ == self.dims(),
            crate::shape::strides_are(ds@, crate::shape::default_strides(self.dims())),
            i < self.count(),
        ensures
            r == self.flat()[i as int],
    {
        if dense {
            proof {
                self.lemma_standard_position(i as int);
            }
            self.buf_ref()[self.base_pos() + i]
        } else {
            let idx = unravel_index(dims, ds, i);
            *self.uget(&idx)
        }
    }

    /// Folds `f` over the elements from `init`. The elements are taken in
    /// row-major order whichever way the array is laid out, so the result
    /// does not depend on the layout.
    pub fn fold<B, F: Fn(B, A) -> B>(&self, init: B, f: F) -> (r: B)
        requires
            self.wf(),
            forall|b: B, x: A| f.requires((b, x)),
        ensures
            folds_to(f, init, self.flat(), r),
    {
        let dense = self.is_standard_layout();
        let n = self.len();
        let dims = self.dim();
        let ds = default_strides_of(&dims);
        let ghost init0 = init;
        let mut acc = init;
        let mut i: usize = 0;
        let ghost mut accs: Seq<B> = seq![init0];
        while i < n
            invariant
                self.wf(),
                i <= n,
                n as nat == self.count(),
                dims@ == self.dims(),
                crate::shape::strides_are(ds@, crate::shape::default_strides(self.dims())),
                dense ==> standard_layout(self.dims(), self.steps()),
                forall|b: B, x: A| f.requires((b, x)),
                fold_chain(f, init0, self.flat().take(i as int), accs),
                accs.last() == acc,
            decreases n - i,
        {
            let x = self.flat_elem(dense, &dims, &ds, i);
            acc = f(acc, x);
            proof {
                let old_accs = accs;
                accs = accs.push(acc);
                let t = self.flat().take(i + 1);
                assert forall|k: int| 0 <= k < t.len() implies f.ensures((accs[k], t[k]), #[trigger] accs[k + 1]) by {
                    if k < i {
                        assert(old_accs[k + 1] == accs[k + 1]);
                        assert(self.flat().take(i as int)[k] == t[k]);
                    }
                }
            }
            i = i + 1;
        }
        assert(self.flat().take(n as int) =~= self.flat());
        assert(fold_chain(f, init0, self.flat(), accs));
        acc
    }

    /// A new owned array of the same shape holding `f(x)` for each element `x`.
    pub fn map<C: Copy, F: Fn(&A) -> C>(&self, f: F) -> (r: ArrayBase<'a, C>)
        requires
            self.wf(),
            forall|x: &A| f.requires((x,)),
        ensures
            r.wf(),
            r.mode() == Ownership::Exclusive,
            r.dims() == self.dims(),
            forall|idx: Seq<int>| valid_index(self.dims(), idx) ==> f.ensures((&self.at(idx),), #[trigger] r.at(idx)),
            forall|i: int| 0 <= i < self.count() ==> f.ensures((&self.flat()[i],), #[trigger] r.flat()[i]),
            crate::shape::contiguous_layout(self.dims(), self.steps()) ==> r.steps() == self.steps(),
            !crate::shape::contiguous_layout(self.dims(), self.steps()) ==> crate::shape::strides_are(
                r.steps(),
                crate::shape::default_strides(self.dims()),
            ),
    {
        match self.as_slice_memory_order() {
            Some(sl) => {
                let mut v: Vec<C> = Vec::new();
                while v.len() < sl.len()
                    invariant
                        v.len() <= sl.len(),
                        forall|x: &A| f.requires((x,)),
                        forall|j: int| 0 <= j < v.len() ==> f.ensures((&sl@[j],), #[trigger] v@[j]),
                    decreases sl.len() - v.len(),
                {
                    let y = f(&sl[v.len()]);
                    v.push(y);
                }
                let r = self.with_layout_of(v);
                proof {
                    assert forall|idx: Seq<int>| valid_index(self.dims(), idx) implies f.ensures((&self.at(idx),), #[trigger] r.at(idx)) by {
                        assert(self.base() <= self.addr(idx) < self.base() + self.count());
                        assert(sl@[self.addr(idx) - self.base()] == self.at(idx));
                    }
                    assert forall|i: int| 0 <= i < self.count() implies f.ensures((&self.flat()[i],), #[trigger] r.flat()[i]) by {
                        lemma_unravel(self.dims(), i);
                        assert(r.at(unravel(self.dims(), i)) == r.flat()[i]);
                    }
                }
                r
            },
            None => {
                let n = self.len();
                let dims = self.dim();
                let ds = default_strides_of(&dims);
                let mut v: Vec<C> = Vec::new();
                while v.len() < n
                    invariant
                        self.wf(),
                        v.len() <= n,
                        n as nat == self.count(),
                        dims@ == self.dims(),
                        crate::shape::strides_are(ds@, crate::shape::default_strides(self.dims())),
                        forall|x: &A| f.requires((x,)),
                        forall|j: int| 0 <= j < v.len() ==> f.ensures((&self.flat()[j],), #[trigger] v@[j]),
                    decreases n - v.len(),
                {
                    let x = self.flat_elem(false, &dims, &ds, v.len());
                    let y = f(&x);
                    v.push(y);
                }
                let r = ArrayBase::from_default_parts(dims, v);
                proof {
                    assert forall|idx: Seq<int>| valid_index(self.dims(), idx) implies f.ensures((&self.at(idx),), #[trigger] r.at(idx)) by {
                        self.lemma_at_is_flat(idx);
                        r.lemma_at_is_flat(idx);
                    }
                }
                r
            },
        }
    }

    /// A new owned array of the same shape holding `f(x)` for each element `x`.
    pub fn mapv<C: Copy, F: Fn(A) -> C>(&self, f: F) -> (r: ArrayBase<'a, C>)
        requires
            self.wf(),
            forall|x: A| f.requires((x,)),
        ensures
            r.wf(),
            r.mode() == Ownership::Exclusive,
            r.dims() == self.dims(),
            forall|idx: Seq<int>| valid_index(self.dims(), idx) ==> f.ensures((self.at(idx),), #[trigger] r.at(idx)),
            forall|i: int| 0 <= i < self.count() ==> f.ensures((self.flat()[i],), #[trigger] r.flat()[i]),
            crate::shape::contiguous_layout(self.dims(), self.steps()) ==> r.steps() == self.steps(),
            !crate::shape::contiguous_layout(self.dims(), self.steps()) ==> crate::shape::strides_are(
                r.steps(),
                crate::shape::default_strides(self.dims()),
            ),
    {
        self.map(|x: &A| -> (c: C) requires f.requires((*x,)) ensures f.ensures((*x,), c) { f(*x) })
    }

    /// Writes `f(x, y)` over each element `x`, where `y` is the element of
    /// `rhs` (of the same shape) at the same multi-index, one inner row at a
    /// time: the position of each row's first element is computed from its
    /// multi-index, and the rest of the row follows by the last axis' stride.
    fn zip_mut_with_by_rows<'b, B: Copy, F: Fn(A, B) -> A>(&mut self, rhs: &ArrayBase<'b, B>, f: &F)
        requires
            old(self).wf(),
            old(self).mode() != Ownership::View,
            old(self).dims().len() > 0,
            rhs.wf(),
            rhs.dims() == old(self).dims(),
            forall|x: A, y: B| f.requires((x, y)),
        ensures
            final(self).wf(),
            final(self).mode() == old(self).mode(),
            old(self).writes_within(final(self)),
            old(self).mode() == Ownership::ViewMut ==> *final(final(self).lender()) == *final(old(self).lender()),
            final(self).base() == old(self).base(),
            final(self).dims() == old(self).dims(),
            final(self).steps() == old(self).steps(),
            forall|idx: Seq<int>|
                valid_index(old(self).dims(), idx) ==> f.ensures(
                    (old(self).at(idx), rhs.at(idx)),
                    #[trigger] final(self).at(idx),
                ),
    {
        let ghost a0 = *self;
        let ghost g = |idx: Seq<int>| rhs.at(idx);
        let ghost w = zip_written(&a0, g, *f);
        let n = self.len();
        let dims = self.dim();
        let ds = default_strides_of(&dims);
        let last = dims.len() - 1;
        let row_len = dims[last];
        let s_last = self.strides()[last];
        let r_last = rhs.strides()[last];
        let rbuf = rhs.buf_ref();
        let mut buf = self.take_buf();
        let ghost len = a0.buffer().len() as int;
        proof {
            lemma_write_start(&a0, w);
            assert forall|j: Seq<int>| valid_index(self.dims(), j) implies 0 <= #[trigger] self.addr(j) < len by {
                assert(self.addr(j) == a0.addr(j));
            }
        }
        let mut i: usize = 0;
        while i < n
            invariant
                a0.wf(),
                a0.mode() != Ownership::View,
                rhs.wf(),
                rhs.dims() == a0.dims(),
                dims@ == a0.dims(),
                dims.len() > 0,
                last == dims.len() - 1,
                row_len == dims@[last as int],
                s_last == a0.steps()[last as int],
                r_last == rhs.steps()[last as int],
                n as nat == a0.count(),
                i <= n,
                len == a0.buffer().len(),
                rbuf@ == rhs.buffer(),
                crate::shape::strides_are(ds@, crate::shape::default_strides(a0.dims())),
                self.fits_in(len),
                self.base() == a0.base(),
                self.dims() == a0.dims(),
                self.steps() == a0.steps(),
                self.mode() == a0.mode(),
                forall|x: A, y: B| f.requires((x, y)),
                w == zip_written(&a0, g, *f),
                write_progress(&a0, w, buf@, i as int),
                forall|j: Seq<int>| #[trigger] g(j) == rhs.at(j),
            decreases n - i,
        {
            let idx = unravel_index(&dims, &ds, i);
            let ghost u0 = ix(idx@);
            let mut p = self.position(&idx, Ghost(len));
            let mut q = rhs.position(&idx, Ghost(rhs.buffer().len() as int));
            let mut j = idx[last];
            proof {
                assert(u0[last as int] == j as int);
                lemma_unravel(a0.dims(), i as int);
                assert(u0.update(last as int, j as int) =~= u0);
                assert(self.addr(u0) == a0.addr(u0));
            }
            while j < row_len
                invariant
                    a0.wf(),
                    a0.mode() != Ownership::View,
                    rhs.wf(),
                    rhs.dims() == a0.dims(),
                    dims@ == a0.dims(),
                    last == dims.len() - 1,
                    row_len == dims@[last as int],
                    s_last == a0.steps()[last as int],
                    r_last == rhs.steps()[last as int],
                    n as nat == a0.count(),
                    len == a0.buffer().len(),
                    rbuf@ == rhs.buffer(),
                    valid_index(a0.dims(), u0),
                    u0 == unravel(a0.dims(), ravel(a0.dims(), u0)),
                    i as int == ravel(a0.dims(), u0) + j - u0[last as int],
                    u0[last as int] <= j <= row_len,
                    j < row_len ==> i < n && unravel(a0.dims(), i as int) == u0.update(last as int, j as int),
                    j < row_len ==> p as int == a0.addr(u0.update(last as int, j as int)),
                    j < row_len ==> q as int == rhs.addr(u0.update(last as int, j as int)),
                    i <= n,
                    forall|x: A, y: B| f.requires((x, y)),
                    w == zip_written(&a0, g, *f),
                    write_progress(&a0, w, buf@, i as int),
                    forall|jj: Seq<int>| #[trigger] g(jj) == rhs.at(jj),
                decreases row_len - j,
            {
                proof {
                    lemma_write_next(&a0, w, buf@, i as int);
                }
                let val = f(buf[p], rbuf[q]);
                proof {
                    lemma_write_step(&a0, w, buf@, i as int, val);
                }
                buf.set(p, val);
                i = i + 1;
                j = j + 1;
                if j < row_len {
                    proof {
                        let un = u0.update(last as int, j as int);
                        let uo = u0.update(last as int, j - 1);
                        assert(valid_index(a0.dims(), un)) by {
                            assert forall|k: int| 0 <= k < un.len() implies 0 <= #[trigger] un[k] < a0.dims()[k] by {
                                if k != last {
                                    assert(un[k] == u0[k]);
                                }
                            }
                        }
                        crate::shape::lemma_ravel_last(a0.dims(), u0, j as int);
                        crate::shape::lemma_ravel_bounds(a0.dims(), un);
                        lemma_unravel(a0.dims(), i as int);
                        lemma_ravel_injective(a0.dims(), un, unravel(a0.dims(), i as int));
                        assert(uo.update(last as int, j as int) =~= un);
                        assert(uo[last as int] == j - 1);
                        assert(p as int == a0.addr(uo));
                        assert(q as int == rhs.addr(uo));
                        let d: int = j as int - uo[last as int];
                        assert(d == 1);
                        let sl = s_last as int;
                        let rl = r_last as int;
                        assert(d * sl == sl && d * rl == rl) by (nonlinear_arith)
                            requires
                                d == 1,
                        ;
                        crate::shape::lemma_offset_move(uo, a0.steps(), last as int, j as int);
                        crate::shape::lemma_offset_move(uo, rhs.steps(), last as int, j as int);
                        assert(0 <= a0.addr(un) < len);
                        assert(0 <= rhs.addr(un) < rhs.buffer().len());
                        assert(p as int + s_last as int == a0.addr(un));
                        assert(q as int + r_last as int == rhs.addr(un));
                    }
                    p = (p as isize + s_last) as usize;
                    q = (q as isize + r_last) as usize;
                }
            }
        }
        let ghost fb = buf@;
        self.put_buf(buf);
        proof {
            lemma_write_done(&a0, w, fb, self);
        }
    }

    /// Writes `f(x, y)` over each element `x`, where `y` is the element of
    /// `rhs` (of the same shape) at the same multi-index.
    fn zip_mut_with_same_shape<'b, B: Copy, F: Fn(A, B) -> A>(&mut self, rhs: &ArrayBase<'b, B>, f: &F)
        requires
            old(self).wf(),
            old(self).mode() != Ownership::View,
            rhs.wf(),
            rhs.dims() == old(self).dims(),
            forall|x: A, y: B| f.requires((x, y)),
        ensures
            final(self).wf(),
            final(self).mode() == old(self).mode(),
            old(self).writes_within(final(self)),
            old(self).mode() == Ownership::ViewMut ==> *final(final(self).lender()) == *final(old(self).lender()),
            final(self).base() == old(self).base(),
            final(self).dims() == old(self).dims(),
            final(self).steps() == old(self).steps(),
            forall|idx: Seq<int>|
                valid_index(old(self).dims(), idx) ==> f.ensures(
                    (old(self).at(idx), rhs.at(idx)),
                    #[trigger] final(self).at(idx),
                ),
    {
        let dense = self.is_standard_layout() && rhs.is_standard_layout();
        if !dense && self.ndim() > 0 {
            self.zip_mut_with_by_rows(rhs, f);
            return;
        }
        let ghost a0 = *self;
        let ghost g = |idx: Seq<int>| rhs.at(idx);
        let n = self.len();
        let dims = self.dim();
        let ds = default_strides_of(&dims);
        let base = self.base_pos();
        let rbase = rhs.base_pos();
        let rbuf = rhs.buf_ref();
        let mut buf = self.take_buf();
        proof {
            lemma_write_start(&a0, zip_written(&a0, g, *f));
        }
        let mut i: usize = 0;
        while i < n
            invariant
                a0.wf(),
                a0.mode() != Ownership::View,
                rhs.wf(),
                rhs.dims() == a0.dims(),
                dims@ == a0.dims(),
                n as nat == a0.count(),
                i <= n,
                base as int == a0.base(),
                rbase as int == rhs.base(),
                rbuf@ == rhs.buffer(),
                crate::shape::strides_are(ds@, crate::shape::default_strides(a0.dims())),
                dense ==> standard_layout(a0.dims(), a0.steps()) && standard_layout(rhs.dims(), rhs.steps()),
                self.base() == a0.base(),
                self.dims() == a0.dims(),
                self.steps() == a0.steps(),
                self.mode() == a0.mode(),
                forall|x: A, y: B| f.requires((x, y)),
                write_progress(&a0, zip_written(&a0, g, *f), buf@, i as int),
                forall|j: Seq<int>| #[trigger] g(j) == rhs.at(j),
            decreases n - i,
        {
            let ghost u = unravel(a0.dims(), i as int);
            let p: usize;
            let q: usize;
            if dense {
                proof {
                    a0.lemma_standard_position(i as int);
                    rhs.lemma_standard_position(i as int);
                }
                p = base + i;
                q = rbase + i;
            } else {
                let idx = unravel_index(&dims, &ds, i);
                proof {
                    assert(self.fits_in(a0.buffer().len() as int)) by {
                        assert forall|j: Seq<int>| valid_index(self.dims(), j) implies 0 <= #[trigger] self.addr(j) < a0.buffer().len() by {
                            assert(self.addr(j) == a0.addr(j));
                        }
                    }
                }
                p = self.position(&idx, Ghost(a0.buffer().len() as int));
                q = rhs.position(&idx, Ghost(rhs.buffer().len() as int));
            }
            assert(p as int == a0.addr(u));
            assert(q as int == rhs.addr(u));
            assert(rbuf@[q as int] == g(u));
            let val = f(buf[p], rbuf[q]);
            proof {
                lemma_write_next(&a0, zip_written(&a0, g, *f), buf@, i as int);
                lemma_write_step(&a0, zip_written(&a0, g, *f), buf@, i as int, val);
            }
            buf.set(p, val);
            i = i + 1;
        }
        let ghost fb = buf@;
        self.put_buf(buf);
        proof {
            lemma_write_done(&a0, zip_written(&a0, g, *f), fb, self);
        }
    }
}

impl<'a, A: Copy> ArrayBase<'a, A> {
    /// Writes `f(x, y)` over each element `x`, for one fixed `y`.
    fn zip_mut_with_elem<B: Copy, F: Fn(A, B) -> A>(&mut self, y: B, f: &F)
        requires
            old(self).wf(),
            old(self).mode() != Ownership::View,
            forall|x: A, z: B| f.requires((x, z)),
        ensures
            final(self).wf(),
            final(self).mode() == old(self).mode(),
            old(self).writes_within(final(self)),
            old(self).mode() == Ownership::ViewMut ==> *final(final(self).lender()) == *final(old(self).lender()),
            final(self).base() == old(self).base(),
            final(self).dims() == old(self).dims(),
            final(self).steps() == old(self).steps(),
            forall|idx: Seq<int>|
                valid_index(old(self).dims(), idx) ==> f.ensures((old(self).at(idx), y), #[trigger] final(self).at(idx)),
    {
        let ghost a0 = *self;
        let ghost g = |idx: Seq<int>| y;
        let dense = self.is_standard_layout();
        let n = self.len();
        let dims = self.dim();
        let ds = default_strides_of(&dims);
        let base = self.base_pos();
        let mut buf = self.take_buf();
        proof {
            lemma_write_start(&a0, zip_written(&a0, g, *f));
        }
        let mut i: usize = 0;
        while i < n
            invariant
                a0.wf(),
                a0.mode() != Ownership::View,
                dims@ == a0.dims(),
                n as nat == a0.count(),
                i <= n,
                base as int == a0.base(),
                crate::shape::strides_are(ds@, crate::shape::default_strides(a0.dims())),
                dense ==> standard_layout(a0.dims(), a0.steps()),
                self.base() == a0.base(),
                self.dims() == a0.dims(),
                self.steps() == a0.steps(),
                self.mode() == a0.mode(),
                forall|x: A, z: B| f.requires((x, z)),
                write_progress(&a0, zip_written(&a0, g, *f), buf@, i as int),
                forall|j: Seq<int>| #[trigger] g(j) == y,
            decreases n - i,
        {
            let ghost u = unravel(a0.dims(), i as int);
            let p: usize;
            if dense {
                proof {
                    a0.lemma_standard_position(i as int);
                }
                p = base + i;
            } else {
                let idx = unravel_index(&dims, &ds, i);
                proof {
                    assert(self.fits_in(a0.buffer().len() as int)) by {
                        assert forall|j: Seq<int>| valid_index(self.dims(), j) implies 0 <= #[trigger] self.addr(j) < a0.buffer().len() by {
                            assert(self.addr(j) == a0.addr(j));
                        }
                    }
                }
                p = self.position(&idx, Ghost(a0.buffer().len() as int));
            }
            assert(p as int == a0.addr(u));
            let val = f(buf[p], y);
            proof {
                lemma_write_next(&a0, zip_written(&a0, g, *f), buf@, i as int);
                lemma_write_step(&a0, zip_written(&a0, g, *f), buf@, i as int, val);
            }
            buf.set(p, val);
            i = i + 1;
        }
        let ghost fb = buf@;
        self.put_buf(buf);
        proof {
            lemma_write_done(&a0, zip_written(&a0, g, *f), fb, self);
        }
    }

    /// Writes `f(x, y)` over each element `x`, where `y` is the element of
    /// `rhs` at the same multi-index once `rhs` is broadcast to this shape.
    /// The order in which elements are visited is not specified.
    pub fn zip_mut_with<'b, B: Copy, F: Fn(A, B) -> A>(&mut self, rhs: &ArrayBase<'b, B>, f: F)
        requires
            old(self).wf(),
            old(self).mode() != Ownership::View,
            rhs.wf(),
            broadcast_compatible(rhs.dims(), old(self).dims()),
            forall|x: A, y: B| f.requires((x, y)),
        ensures
            final(self).wf(),
            final(self).mode() == old(self).mode(),
            old(self).writes_within(final(self)),
            old(self).mode() == Ownership::ViewMut ==> *final(final(self).lender()) == *final(old(self).lender()),
            final(self).base() == old(self).base(),
            final(self).dims() == old(self).dims(),
            final(self).steps() == old(self).steps(),
            forall|idx: Seq<int>|
                valid_index(old(self).dims(), idx) ==> f.ensures(
                    (old(self).at(idx), rhs.at(broadcast_index(rhs.dims(), old(self).dims(), idx))),
                    #[trigger] final(self).at(idx),
                ),
    {
        if rhs.ndim() == 0 {
            let e: Vec<usize> = Vec::new();
            proof {
                assert(valid_index(rhs.dims(), ix(e@)));
            }
            let y = *rhs.uget(&e);
            self.zip_mut_with_elem(y, &f);
            proof {
                assert forall|idx: Seq<int>| valid_index(old(self).dims(), idx) implies broadcast_index(
                    rhs.dims(),
                    old(self).dims(),
                    idx,
                ) == ix(e@) by {
                    assert(broadcast_index(rhs.dims(), old(self).dims(), idx) =~= ix(e@));
                }
            }
        } else if crate::shape::shapes_equal(self.shape(), rhs.shape()) {
            self.zip_mut_with_same_shape(rhs, &f);
            proof {
                assert forall|idx: Seq<int>| valid_index(old(self).dims(), idx) implies broadcast_index(
                    rhs.dims(),
                    old(self).dims(),
                    idx,
                ) == idx by {
                    assert(broadcast_index(rhs.dims(), old(self).dims(), idx) =~= idx);
                }
            }
        } else {
            let shape = self.dim();
            let rb = rhs.broadcast(shape).unwrap();
            self.zip_mut_with_same_shape(&rb, &f);
        }
    }

    /// Copies `rhs`, broadcast to this shape, into the array.
    pub fn assign<'b>(&mut self, rhs: &ArrayBase<'b, A>)
        requires
            old(self).wf(),
            old(self).mode() != Ownership::View,
            rhs.wf(),
            broadcast_compatible(rhs.dims(), old(self).dims()),
        ensures
            final(self).wf(),
            final(self).mode() == old(self).mode(),
            old(self).writes_within(final(self)),
            old(self).mode() == Ownership::ViewMut ==> *final(final(self).lender()) == *final(old(self).lender()),
            final(self).base() == old(self).base(),
            final(self).dims() == old(self).dims(),
            final(self).steps() == old(self).steps(),
            forall|idx: Seq<int>|
                valid_index(old(self).dims(), idx) ==> #[trigger] final(self).at(idx) == rhs.at(
                    broadcast_index(rhs.dims(), old(self).dims(), idx),
                ),
    {
        self.zip_mut_with(rhs, |x: A, y: A| -> (r: A) ensures r == y { y });
    }

    /// Sets every element to `x`.
    pub fn assign_scalar(&mut self, x: &A)
        requires
            old(self).wf(),
            old(self).mode() != Ownership::View,
        ensures
            final(self).wf(),
            final(self).mode() == old(self).mode(),
            old(self).writes_within(final(self)),
            old(self).mode() == Ownership::ViewMut ==> *final(final(self).lender()) == *final(old(self).lender()),
            final(self).base() == old(self).base(),
            final(self).dims() == old(self).dims(),
            final(self).steps() == old(self).steps(),
            forall|idx: Seq<int>| valid_index(old(self).dims(), idx) ==> #[trigger] final(self).at(idx) == *x,
    {
        self.zip_mut_with_elem(*x, &|a: A, y: A| -> (r: A) ensures r == y { y });
    }

    /// Replaces every element `x` by `f(x)`. The order in which elements are
    /// visited is not specified.
    pub fn mapv_inplace<F: Fn(A) -> A>(&mut self, f: F)
        requires
            old(self).wf(),
            old(self).mode() != Ownership::View,
            forall|x: A| f.requires((x,)),
        ensures
            final(self).wf(),
            final(self).mode() == old(self).mode(),
            old(self).writes_within(final(self)),
            old(self).mode() == Ownership::ViewMut ==> *final(final(self).lender()) == *final(old(self).lender()),
            final(self).base() == old(self).base(),
            final(self).dims() == old(self).dims(),
            final(self).steps() == old(self).steps(),
            forall|idx: Seq<int>|
                valid_index(old(self).dims(), idx) ==> f.ensures((old(self).at(idx),), #[trigger] final(self).at(idx)),
    {
        self.zip_mut_with_elem(
            false,
            &|a: A, unused: bool| -> (r: A) requires f.requires((a,)) ensures f.ensures((a,), r) { f(a) },
        );
    }

    /// The array with every element `x` replaced by `f(x)`.
    pub fn mapv_into<F: Fn(A) -> A>(self, f: F) -> (r: Self)
        requires
            self.wf(),
            self.mode() != Ownership::View,
            forall|x: A| f.requires((x,)),
        ensures
            r.wf(),
            r.mode() == self.mode(),
            r.dims() == self.dims(),
            r.steps() == self.steps(),
            self.writes_within(&r),
            self.mode() == Ownership::ViewMut ==> *final(r.lender()) == *final(self.lender()),
            forall|idx: Seq<int>| valid_index(self.dims(), idx) ==> f.ensures((self.at(idx),), #[trigger] r.at(idx)),
    {
        let mut s = self;
        s.mapv_inplace(f);
        s
    }
}

/// The elements along `axis` that meet at the multi-index `idx` of the
/// other axes.
pub open spec fn lane<'a, A>(a: &ArrayBase<'a, A>, axis: int, idx: Seq<int>) -> Seq<A> {
    Seq::new(a.dims()[axis] as nat, |t: int| a.at(idx.insert(axis, t)))
}

impl<'a, A: Copy> ArrayBase<'a, A> {
    /// Folds along `axis`: a new array without that axis whose element at
    /// each multi-index is the fold of `fold` from `init` over the elements
    /// along `axis` there, taken in order.
    pub fn fold_axis<'r, B: Copy, F: Fn(B, A) -> B>(&self, axis: usize, init: B, fold: F) -> (r: ArrayBase<'r, B>)
        requires
            self.wf(),
            axis < self.dims().len(),
            forall|b: B, x: A| fold.requires((b, x)),
        ensures
            r.wf(),
            r.mode() == Ownership::Exclusive,
            r.dims() == self.dims().remove(axis as int),
            forall|idx: Seq<int>|
                valid_index(r.dims(), idx) ==> folds_to(fold, init, lane(self, axis as int, idx), #[trigger] r.at(idx)),
    {
        let mut dims = self.dim();
        let len = dims.remove(axis);
        proof {
            crate::shape::lemma_fits_remove(self.dims(), axis as int);
        }
        let mut res = ArrayBase::<'r, B>::filled(dims, init);
        let ghost rd = res.dims();
        let mut t: usize = 0;
        proof {
            assert forall|idx: Seq<int>| valid_index(rd, idx) implies folds_to(fold, init, lane(self, axis as int, idx).take(0), #[trigger] res.at(idx)) by {
                let accs = seq![init];
                assert(lane(self, axis as int, idx).take(0) =~= Seq::<A>::empty());
                assert(fold_chain(fold, init, lane(self, axis as int, idx).take(0), accs));
            }
        }
        while t < len
            invariant
                self.wf(),
                axis < self.dims().len(),
                len == self.dims()[axis as int],
                t <= len,
                res.wf(),
                res.mode() == Ownership::Exclusive,
                res.dims() == rd,
                rd == self.dims().remove(axis as int),
                forall|b: B, x: A| fold.requires((b, x)),
                forall|idx: Seq<int>|
                    valid_index(rd, idx) ==> folds_to(fold, init, lane(self, axis as int, idx).take(t as int), #[trigger] res.at(idx)),
            decreases len - t,
        {
            let sub = self.subview(axis, t);
            let ghost before = res;
            proof {
                assert forall|k: int| 0 <= k < sub.dims().len() implies #[trigger] sub.dims()[k] == res.dims()[k + res.dims().len() - sub.dims().len()] || sub.dims()[k] == 1 by {}
            }
            res.zip_mut_with(&sub, |b: B, x: A| -> (c: B) requires fold.requires((b, x)) ensures fold.ensures((b, x), c) { fold(b, x) });
            proof {
                assert forall|idx: Seq<int>| valid_index(rd, idx) implies folds_to(fold, init, lane(self, axis as int, idx).take(t + 1), #[trigger] res.at(idx)) by {
                    let l = lane(self, axis as int, idx);
                    assert(broadcast_index(sub.dims(), rd, idx) =~= idx);
                    let v0 = before.at(idx);
                    assert(folds_to(fold, init, l.take(t as int), v0));
                    let accs = choose|accs: Seq<B>| #[trigger] fold_chain(fold, init, l.take(t as int), accs) && accs.last() == v0;
                    let accs2 = accs.push(res.at(idx));
                    assert(l[t as int] == sub.at(idx));
                    assert forall|k: int| 0 <= k < t + 1 implies fold.ensures((accs2[k], l.take(t + 1)[k]), #[trigger] accs2[k + 1]) by {
                        if k < t {
                            assert(l.take(t as int)[k] == l.take(t + 1)[k]);
                        }
                    }
                    assert(fold_chain(fold, init, l.take(t + 1), accs2));
                }
            }
            t = t + 1;
        }
        proof {
            assert forall|idx: Seq<int>| valid_index(rd, idx) implies folds_to(fold, init, lane(self, axis as int, idx), #[trigger] res.at(idx)) by {
                assert(lane(self, axis as int, idx).take(len as int) =~= lane(self, axis as int, idx));
            }
        }
        res
    }
}

} // verus!
