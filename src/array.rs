//! The array core: storage under four ownership modes, the shape, strides and
//! base position that map multi-indices into it, and indexing.
use vstd::prelude::*;
use std::rc::Rc;
use crate::shape::{
    broadcast_compatible, broadcast_index, broadcast_strides, default_strides, default_strides_of,
    fortran_layout, ix, lemma_broadcast_offset, lemma_default_is_standard,
    lemma_default_offset_is_ravel, lemma_offset_unit, lemma_offset_zero_prefix, lemma_ravel_bounds,
    lemma_unravel, offset, ravel, shape_fits, size, size_checked, standard_layout, strides_are,
    unit_index, unravel, unravel_index, valid_index, zeros,
};

verus! {

/// How an array holds its elements.
#[derive(Clone, Copy, Debug, PartialEq, Eq, Structural)]
pub enum Ownership {
    /// Sole owner of its buffer.
    Exclusive,
    /// One of possibly several owners of a reference-counted buffer; copied before mutation.
    Shared,
    /// Borrows a buffer owned elsewhere, read-only.
    View,
    /// Borrows a buffer owned elsewhere, with exclusive write access.
    ViewMut,
}

/// Kinds of shape errors.
#[derive(Clone, Copy, Debug, PartialEq, Eq, Structural)]
pub enum ErrorKind {
    /// The element counts of two shapes differ, or a count does not fit.
    IncompatibleShape,
    /// The layout of the data does not allow the operation without copying.
    IncompatibleLayout,
}

/// Error of a checked shape operation.
#[derive(Clone, Copy, Debug, PartialEq, Eq, Structural)]
pub struct ShapeError {
    pub kind: ErrorKind,
}

/// The storage of an array.
pub enum Repr<'a, A> {
    Owned(Vec<A>),
    Shared(Rc<Vec<A>>),
    View(&'a Vec<A>),
    ViewMut(&'a mut Vec<A>),
}

impl<'a, A> Repr<'a, A> {
    pub open spec fn buf(&self) -> Seq<A> {
        match self {
            Repr::Owned(v) => v@,
            Repr::Shared(v) => v@,
            Repr::View(v) => v@,
            Repr::ViewMut(v) => v@,
        }
    }

    pub open spec fn mode(&self) -> Ownership {
        match self {
            Repr::Owned(_) => Ownership::Exclusive,
            Repr::Shared(_) => Ownership::Shared,
            Repr::View(_) => Ownership::View,
            Repr::ViewMut(_) => Ownership::ViewMut,
        }
    }
}

/// An n-dimensional array: a buffer, the position of the first element in it,
/// the extent of each axis, and the signed step of each axis. The fields are
/// open to reading in contracts; every operation asks for `wf()`.
pub struct ArrayBase<'a, A> {
    pub data: Repr<'a, A>,
    pub ptr: usize,
    pub dim: Vec<usize>,
    pub strides: Vec<isize>,
}

/// An array that owns its elements.
pub type OwnedArray<A> = ArrayBase<'static, A>;

/// An array that shares its elements, copied on write.
pub type RcArray<A> = ArrayBase<'static, A>;

/// A read-only view.
pub type ArrayView<'a, A> = ArrayBase<'a, A>;

/// A read-write view.
pub type ArrayViewMut<'a, A> = ArrayBase<'a, A>;

/// Copy of a vector of plain values.
pub fn copy_vec<T: Copy>(v: &Vec<T>) -> (r: Vec<T>)
    ensures
        r@ == v@,
{
    copy_vec_of_slice(v.as_slice())
}

/// Copy of a slice of plain values.
pub fn copy_vec_of_slice<T: Copy>(v: &[T]) -> (r: Vec<T>)
    ensures
        r@ == v@,
{
    let mut r: Vec<T> = Vec::new();
    let mut i: usize = 0;
    while i < v.len()
        invariant
            i <= v.len(),
            r@ == v@.take(i as int),
        decreases v.len() - i,
    {
        r.push(v[i]);
        i = i + 1;
        assert(r@ =~= v@.take(i as int));
    }
    assert(v@.take(v.len() as int) =~= v@);
    r
}

impl<'a, A> ArrayBase<'a, A> {
    /// The buffer the array reads from.
    pub closed spec fn buffer(&self) -> Seq<A> {
        self.data.buf()
    }

    /// Position of the element at the zero multi-index.
    pub closed spec fn base(&self) -> int {
        self.ptr as int
    }

    /// Extents of the axes.
    pub closed spec fn dims(&self) -> Seq<usize> {
        self.dim@
    }

    /// Steps of the axes.
    pub closed spec fn steps(&self) -> Seq<isize> {
        self.strides@
    }

    pub open spec fn mode(&self) -> Ownership {
        self.data.mode()
    }

    /// For a mutable view, the borrow of the lender's buffer: what it holds
    /// when the view is gone is what the lender holds from then on.
    pub open spec fn lender(&self) -> &'a mut Vec<A> {
        match self.data {
            Repr::ViewMut(m) => m,
            _ => arbitrary(),
        }
    }

    /// Buffer position of the element at `idx`.
    pub open spec fn addr(&self, idx: Seq<int>) -> int {
        self.base() + offset(idx, self.steps())
    }

    /// The element at multi-index `idx`.
    pub open spec fn at(&self, idx: Seq<int>) -> A {
        self.buffer()[self.addr(idx)]
    }

    /// Distinct valid multi-indices name distinct buffer positions.
    pub open spec fn no_alias(&self) -> bool {
        forall|i: Seq<int>, j: Seq<int>|
            valid_index(self.dims(), i) && valid_index(self.dims(), j) && #[trigger] self.addr(i)
                == #[trigger] self.addr(j) ==> i == j
    }

    /// Well-formedness: shape and strides agree in rank, the base lies in
    /// `[0, buffer length]`, every valid multi-index lands in the buffer, and
    /// an array that may write never names one position twice.
    pub open spec fn wf(&self) -> bool {
        &&& self.fits_in(self.buffer().len() as int)
        &&& self.mode() != Ownership::View ==> self.no_alias()
        &&& self.mode() == Ownership::ViewMut ==> self.buffer() == self.lender()@
    }

    /// The layout addresses only positions in `[0, len)` of a buffer of
    /// length `len`, and the base lies in `[0, len]`.
    pub open spec fn fits_in(&self, len: int) -> bool {
        &&& self.dims().len() == self.steps().len()
        &&& shape_fits(self.dims())
        &&& len <= isize::MAX
        &&& 0 <= self.base() <= len
        &&& forall|idx: Seq<int>| valid_index(self.dims(), idx) ==> 0 <= #[trigger] self.addr(idx) < len
    }

    /// Number of elements.
    pub open spec fn count(&self) -> nat {
        size(self.dims())
    }

    /// The elements in logical row-major order.
    pub open spec fn flat(&self) -> Seq<A> {
        Seq::new(size(self.dims()), |i: int| self.at(unravel(self.dims(), i)))
    }

    /// The elements in column-major order (first axis fastest).
    pub open spec fn flat_f(&self) -> Seq<A> {
        Seq::new(size(self.dims()), |i: int| self.at(unravel(self.dims().reverse(), i).reverse()))
    }

    /// Every element lies among the `count` buffer positions from the base on.
    pub open spec fn memory_contiguous(&self) -> bool {
        forall|idx: Seq<int>|
            valid_index(self.dims(), idx) ==> self.base() <= #[trigger] self.addr(idx) < self.base() + self.count()
    }

    /// Some valid multi-index names buffer position `p`.
    pub open spec fn addressed(&self, p: int) -> bool {
        exists|idx: Seq<int>| #[trigger] valid_index(self.dims(), idx) && self.addr(idx) == p
    }

    /// `later` has a buffer of the same length that differs from this
    /// array's only at positions this array names.
    pub open spec fn writes_within(&self, later: &Self) -> bool {
        &&& later.buffer().len() == self.buffer().len()
        &&& forall|p: int|
            0 <= p < self.buffer().len() && !self.addressed(p) ==> #[trigger] later.buffer()[p] == self.buffer()[p]
    }

    /// Same shape and same element at every multi-index.
    pub open spec fn same_elements<'b>(&self, other: &ArrayBase<'b, A>) -> bool {
        &&& self.dims() == other.dims()
        &&& forall|idx: Seq<int>|
            valid_index(self.dims(), idx) ==> #[trigger] self.at(idx) == other.at(idx)
    }

    pub(crate) fn buf_ref(&self) -> (r: &Vec<A>)
        ensures
            r@ == self.buffer(),
    {
        match &self.data {
            Repr::Owned(v) => v,
            Repr::Shared(rc) => &**rc,
            Repr::View(v) => *v,
            Repr::ViewMut(v) => &**v,
        }
    }
}

impl<'a, A: Copy> ArrayBase<'a, A> {
    /// Offsets of valid multi-indices stay strictly within the buffer's length.
    pub(crate) proof fn lemma_offset_bounds(&self, idx: Seq<int>, len: int)
        requires
            self.fits_in(len),
            valid_index(self.dims(), idx),
        ensures
            -isize::MAX <= offset(idx, self.steps()) < isize::MAX,
            0 <= self.addr(idx) < len,
    {
        assert(0 <= self.addr(idx) < len);
    }

    /// Every extent of an array with at least one valid index fits in an `isize`.
    pub(crate) proof fn lemma_extent_fits(&self, k: int)
        requires
            self.dims().len() == self.steps().len(),
            shape_fits(self.dims()),
            0 <= k < self.dims().len(),
        ensures
            self.dims()[k] <= isize::MAX,
    {
        crate::shape::lemma_run_fits(self.dims(), k, k + 1);
        let one = self.dims().subrange(k, k + 1);
        assert(one.drop_first() =~= Seq::<usize>::empty());
        assert(one[0] == self.dims()[k]);
        assert(size(one.drop_first()) == 1);
        assert(size(one) == one[0] as nat * size(one.drop_first()));
        let x = one[0] as nat;
        let y = size(one.drop_first());
        assert(x * y == x) by (nonlinear_arith)
            requires
                y == 1,
        ;
    }

    /// Under a standard layout no two valid multi-indices share a position.
    proof fn lemma_standard_no_alias(&self)
        requires
            standard_layout(self.dims(), self.steps()),
        ensures
            self.no_alias(),
    {
        assert forall|i: Seq<int>, j: Seq<int>|
            valid_index(self.dims(), i) && valid_index(self.dims(), j) && #[trigger] self.addr(i)
                == #[trigger] self.addr(j) implies i == j by {
            lemma_default_offset_is_ravel(self.dims(), i, self.steps());
            lemma_default_offset_is_ravel(self.dims(), j, self.steps());
            crate::shape::lemma_ravel_injective(self.dims(), i, j);
        }
    }

    /// Same buffer, base, shape and strides: the same well-formedness, up to mode.
    pub(crate) proof fn lemma_same_layout<'b>(&self, other: &ArrayBase<'b, A>)
        requires
            other.wf(),
            self.buffer() == other.buffer(),
            self.base() == other.base(),
            self.dims() == other.dims(),
            self.steps() == other.steps(),
            self.mode() != Ownership::View ==> other.mode() != Ownership::View,
        ensures
            self.wf(),
            self.flat() == other.flat(),
    {
        assert forall|idx: Seq<int>| valid_index(self.dims(), idx) implies 0 <= #[trigger] self.addr(idx)
            < self.buffer().len() by {
            assert(self.addr(idx) == other.addr(idx));
        }
        if self.mode() != Ownership::View {
            assert forall|i: Seq<int>, j: Seq<int>|
                valid_index(self.dims(), i) && valid_index(self.dims(), j) && #[trigger] self.addr(i)
                    == #[trigger] self.addr(j) implies i == j by {
                assert(self.addr(i) == other.addr(i));
                assert(self.addr(j) == other.addr(j));
            }
        }
        assert(self.flat() =~= other.flat());
    }

    /// Offset of a valid multi-index, computed axis by axis.
    pub(crate) fn index_offset(&self, idx: &Vec<usize>, Ghost(len): Ghost<int>) -> (r: isize)
        requires
            self.fits_in(len),
            valid_index(self.dims(), ix(idx@)),
        ensures
            r as int == offset(ix(idx@), self.steps()),
    {
        let n = self.dim.len();
        let mut k: usize = n;
        let mut acc: isize = 0;
        let ghost t = ix(idx@);
        let ghost s = self.steps();
        proof {
            assert(t.skip(n as int) =~= Seq::<int>::empty());
        }
        while k > 0
            invariant
                k <= n,
                n == self.dim.len(),
                n == idx.len(),
                t == ix(idx@),
                s == self.steps(),
                self.fits_in(len),
                valid_index(self.dims(), t),
                acc as int == offset(t.skip(k as int), s.skip(k as int)),
            decreases k,
        {
            let j = k - 1;
            proof {
                let z = zeros(j as nat) + t.skip(j as int);
                assert(valid_index(self.dims(), z)) by {
                    assert forall|q: int| 0 <= q < z.len() implies 0 <= #[trigger] z[q] < self.dims()[q] by {
                        assert(0 <= t[q] < self.dims()[q]);
                        if q >= j {
                            assert(z[q] == t[q]);
                        }
                    }
                }
                lemma_offset_zero_prefix(t, s, j as int);
                self.lemma_offset_bounds(z, len);
                let u = unit_index(n as nat, j as int, t[j as int]);
                assert(valid_index(self.dims(), u)) by {
                    assert forall|q: int| 0 <= q < u.len() implies 0 <= #[trigger] u[q] < self.dims()[q] by {
                        assert(0 <= t[q] < self.dims()[q]);
                        if q == j {
                            assert(u[q] == t[q]);
                        }
                    }
                }
                lemma_offset_unit(s, j as int, t[j as int]);
                self.lemma_offset_bounds(u, len);
                self.lemma_extent_fits(j as int);
                assert(t.skip(j as int).drop_first() =~= t.skip(k as int));
                assert(s.skip(j as int).drop_first() =~= s.skip(k as int));
                assert(t[j as int] == idx@[j as int] as int);
            }
            let term = (idx[j] as isize) * self.strides[j];
            acc = acc + term;
            k = j;
        }
        proof {
            assert(t.skip(0) =~= t);
            assert(s.skip(0) =~= s);
        }
        acc
    }

    /// Whether `idx` is a valid multi-index of this array.
    fn index_in_range(&self, idx: &Vec<usize>) -> (r: bool)
        requires
            self.wf(),
        ensures
            r == valid_index(self.dims(), ix(idx@)),
    {
        if idx.len() != self.dim.len() {
            return false;
        }
        let mut k: usize = 0;
        while k < idx.len()
            invariant
                k <= idx.len(),
                idx.len() == self.dim.len(),
                forall|q: int| 0 <= q < k ==> 0 <= #[trigger] ix(idx@)[q] < self.dims()[q],
            decreases idx.len() - k,
        {
            if idx[k] >= self.dim[k] {
                assert(ix(idx@)[k as int] == idx@[k as int] as int);
                return false;
            }
            k = k + 1;
        }
        true
    }

    /// Buffer position of a valid multi-index.
    pub(crate) fn position(&self, idx: &Vec<usize>, Ghost(len): Ghost<int>) -> (r: usize)
        requires
            self.fits_in(len),
            valid_index(self.dims(), ix(idx@)),
        ensures
            r as int == self.addr(ix(idx@)),
            r < len,
    {
        let off = self.index_offset(idx, Ghost(len));
        proof {
            self.lemma_offset_bounds(ix(idx@), len);
        }
        (self.ptr as isize + off) as usize
    }

    /// Number of elements.
    pub fn len(&self) -> (r: usize)
        requires
            self.wf(),
        ensures
            r as nat == self.count(),
    {
        let n = size_checked(&self.dim);
        n.unwrap()
    }

    /// Number of axes.
    pub fn ndim(&self) -> (r: usize)
        ensures
            r == self.dims().len(),
    {
        self.dim.len()
    }

    /// Extents of the axes.
    pub fn shape(&self) -> (r: &[usize])
        ensures
            r@ == self.dims(),
    {
        self.dim.as_slice()
    }

    /// Extents of the axes, as an owned vector.
    pub fn dim(&self) -> (r: Vec<usize>)
        ensures
            r@ == self.dims(),
    {
        copy_vec(&self.dim)
    }

    /// Signed steps of the axes, in elements.
    pub fn strides(&self) -> (r: &[isize])
        ensures
            r@ == self.steps(),
    {
        self.strides.as_slice()
    }

    /// How the array holds its elements.
    pub fn ownership(&self) -> (r: Ownership)
        ensures
            r == self.mode(),
    {
        match &self.data {
            Repr::Owned(_) => Ownership::Exclusive,
            Repr::Shared(_) => Ownership::Shared,
            Repr::View(_) => Ownership::View,
            Repr::ViewMut(_) => Ownership::ViewMut,
        }
    }

    /// A read-only view of the same elements.
    pub fn view<'b>(&'b self) -> (r: ArrayBase<'b, A>)
        requires
            self.wf(),
        ensures
            r.wf(),
            r.mode() == Ownership::View,
            r.buffer() == self.buffer(),
            r.base() == self.base(),
            r.dims() == self.dims(),
            r.steps() == self.steps(),
    {
        let r = ArrayBase {
            data: Repr::View(self.buf_ref()),
            ptr: self.ptr,
            dim: copy_vec(&self.dim),
            strides: copy_vec(&self.strides),
        };
        proof {
            r.lemma_same_layout(self);
        }
        r
    }

    /// The element at `index`, or `None` when the index is outside the shape.
    pub fn get(&self, index: &Vec<usize>) -> (r: Option<&A>)
        requires
            self.wf(),
        ensures
            r is Some <==> valid_index(self.dims(), ix(index@)),
            r matches Some(x) ==> *x == self.at(ix(index@)),
    {
        if self.index_in_range(index) {
            let p = self.position(index, Ghost(self.buffer().len() as int));
            Some(&self.buf_ref()[p])
        } else {
            None
        }
    }

    /// The element at a multi-index that the caller guarantees is valid.
    pub fn uget(&self, index: &Vec<usize>) -> (r: &A)
        requires
            self.wf(),
            valid_index(self.dims(), ix(index@)),
        ensures
            *r == self.at(ix(index@)),
    {
        let p = self.position(index, Ghost(self.buffer().len() as int));
        &self.buf_ref()[p]
    }
}

impl<'a, A: Copy> ArrayBase<'a, A> {
    /// An owned array of the given shape with every element equal to `x`.
    pub(crate) fn filled(shape: Vec<usize>, x: A) -> (r: Self)
        requires
            shape_fits(shape@),
        ensures
            r.wf(),
            r.mode() == Ownership::Exclusive,
            r.dims() == shape@,
            strides_are(r.steps(), default_strides(shape@)),
            forall|idx: Seq<int>| valid_index(shape@, idx) ==> #[trigger] r.at(idx) == x,
    {
        let n = size_checked(&shape).unwrap();
        let mut v: Vec<A> = Vec::new();
        while v.len() < n
            invariant
                v.len() <= n,
                forall|j: int| 0 <= j < v.len() ==> #[trigger] v@[j] == x,
            decreases n - v.len(),
        {
            v.push(x);
        }
        let r = Self::from_default_parts(shape, v);
        proof {
            assert forall|idx: Seq<int>| valid_index(shape@, idx) implies #[trigger] r.at(idx) == x by {
                r.lemma_at_is_flat(idx);
            }
        }
        r
    }

    /// An owned array in row-major layout over `v`.
    pub(crate) fn from_default_parts(shape: Vec<usize>, v: Vec<A>) -> (a: Self)
        requires
            shape_fits(shape@),
            size(shape@) == v@.len(),
        ensures
            a.wf(),
            a.mode() == Ownership::Exclusive,
            a.dims() == shape@,
            strides_are(a.steps(), default_strides(shape@)),
            a.base() == 0,
            a.buffer() == v@,
            a.flat() == v@,
    {
        let strides = default_strides_of(&shape);
        let a = ArrayBase { data: Repr::Owned(v), ptr: 0, dim: shape, strides };
        proof {
            lemma_default_is_standard(a.dims(), a.steps());
            a.lemma_standard_no_alias();
            assert forall|idx: Seq<int>| valid_index(a.dims(), idx) implies 0 <= #[trigger] a.addr(idx)
                < a.buffer().len() by {
                lemma_default_offset_is_ravel(a.dims(), idx, a.steps());
                lemma_ravel_bounds(a.dims(), idx);
            }
            assert forall|i: int| 0 <= i < size(a.dims()) implies #[trigger] a.flat()[i] == v@[i] by {
                lemma_unravel(a.dims(), i);
                lemma_default_offset_is_ravel(a.dims(), unravel(a.dims(), i), a.steps());
            }
            assert(a.flat() =~= v@);
            crate::shape::lemma_size_le_nz(shape@);
            crate::shape::lemma_default_strides_len(shape@);
        }
        a
    }

    /// Whether the strides are the row-major ones on every axis of extent other than 1.
    pub fn is_standard_layout(&self) -> (r: bool)
        requires
            self.wf(),
        ensures
            r == standard_layout(self.dims(), self.steps()),
    {
        let defaults = default_strides_of(&self.dim);
        proof {
            crate::shape::lemma_default_strides_len(self.dims());
        }
        let mut k: usize = 0;
        while k < self.dim.len()
            invariant
                k <= self.dim.len(),
                defaults.len() == self.dim.len(),
                default_strides(self.dims()).len() == self.dim.len(),
                self.wf(),
                strides_are(defaults@, default_strides(self.dims())),
                forall|q: int|
                    0 <= q < k && self.dims()[q] != 1 ==> self.steps()[q] as int
                        == #[trigger] default_strides(self.dims())[q],
            decreases self.dim.len() - k,
        {
            if self.dim[k] != 1 && self.strides[k] != defaults[k] {
                assert(self.dims()[k as int] != 1 && self.steps()[k as int] as int != default_strides(
                    self.dims(),
                )[k as int]);
                return false;
            }
            k = k + 1;
        }
        true
    }

    /// The extents and strides with the axes put in order of stride,
    /// smallest first.
    fn axes_by_stride(&self) -> (r: (Vec<usize>, Vec<isize>))
        requires
            self.wf(),
        ensures
            (r.0@, r.1@) == crate::shape::order_by_stride(self.dims(), self.steps(), 0),
    {
        let n = self.dim.len();
        let mut d = copy_vec(&self.dim);
        let mut s = copy_vec(&self.strides);
        let mut k: usize = 0;
        while k < n
            invariant
                n == self.dims().len(),
                n == self.steps().len(),
                k <= n,
                d.len() == n,
                s.len() == n,
                crate::shape::order_by_stride(d@, s@, k as int) == crate::shape::order_by_stride(
                    self.dims(),
                    self.steps(),
                    0,
                ),
            decreases n - k,
        {
            let mut m: usize = k;
            let mut q: usize = k + 1;
            while q < n
                invariant
                    k <= m < n,
                    k < q <= n,
                    s.len() == n,
                    crate::shape::argmin_from(s@, q as int, m as int) == crate::shape::argmin_from(
                        s@,
                        k + 1,
                        k as int,
                    ),
                decreases n - q,
            {
                if s[q] < s[m] {
                    m = q;
                }
                q = q + 1;
            }
            let ghost d0 = d@;
            let ghost s0 = s@;
            let dk = d[k];
            let dm = d[m];
            d.set(k, dm);
            d.set(m, dk);
            let sk = s[k];
            let sm = s[m];
            s.set(k, sm);
            s.set(m, sk);
            proof {
                assert(d@ =~= crate::shape::swap_at(d0, k as int, m as int));
                assert(s@ =~= crate::shape::swap_at(s0, k as int, m as int));
            }
            k = k + 1;
        }
        (d, s)
    }

    /// Whether the elements fill a contiguous part of the buffer: the layout
    /// is standard, or, with the axes ordered by stride, each stride is the
    /// product of the extents before it (axes of extent 1 excepted).
    pub fn is_contiguous(&self) -> (r: bool)
        requires
            self.wf(),
        ensures
            r == crate::shape::contiguous_layout(self.dims(), self.steps()),
            r ==> self.memory_contiguous(),
            r ==> self.base() + self.count() <= self.buffer().len(),
    {
        let r = if self.is_standard_layout() {
            true
        } else if self.dim.len() <= 1 {
            false
        } else {
            let (d, s) = self.axes_by_stride();
            proof {
                let id = |i: Seq<int>| i;
                assert(crate::shape::layouts_match(self.dims(), self.steps(), self.dims(), self.steps(), id, id));
                let _ = crate::shape::lemma_order_match(self.dims(), self.steps(), self.dims(), self.steps(), 0, id, id);
            }
            crate::shape::is_fortran_strides(&d, &s)
        };
        proof {
            if r {
                self.lemma_contiguous_block();
            }
        }
        r
    }

    /// A contiguous layout addresses exactly the `count` positions from the base.
    pub(crate) proof fn lemma_contiguous_block(&self)
        requires
            self.wf(),
            crate::shape::contiguous_layout(self.dims(), self.steps()),
        ensures
            self.memory_contiguous(),
            self.base() + self.count() <= self.buffer().len(),
            forall|i: Seq<int>, j: Seq<int>|
                #[trigger] valid_index(self.dims(), i) && #[trigger] valid_index(self.dims(), j) && self.addr(i)
                    == self.addr(j) ==> i == j,
            forall|p: int| 0 <= p < self.count() ==> #[trigger] crate::shape::offset_reached(self.dims(), self.steps(), p),
    {
        crate::shape::lemma_contiguous_offsets(self.dims(), self.steps());
        assert forall|idx: Seq<int>| valid_index(self.dims(), idx) implies self.base() <= #[trigger] self.addr(idx)
            < self.base() + self.count() by {
            assert(valid_index(self.dims(), idx));
        }
        if self.count() > 0 {
            let p = self.count() - 1;
            assert(crate::shape::offset_reached(self.dims(), self.steps(), p));
            let i0 = choose|i: Seq<int>| #[trigger] valid_index(self.dims(), i) && offset(i, self.steps()) == p;
            assert(self.addr(i0) < self.buffer().len());
        }
    }

    /// The part of the buffer that holds the elements, in memory order,
    /// when the array is contiguous; `None` otherwise.
    pub fn as_slice_memory_order(&self) -> (r: Option<&[A]>)
        requires
            self.wf(),
        ensures
            r is Some <==> crate::shape::contiguous_layout(self.dims(), self.steps()),
            r matches Some(sl) ==> {
                &&& self.memory_contiguous()
                &&& self.base() + self.count() <= self.buffer().len()
                &&& sl@.len() == self.count()
                &&& sl@ == self.buffer().subrange(self.base(), self.base() + self.count())
                &&& forall|idx: Seq<int>|
                    valid_index(self.dims(), idx) ==> #[trigger] self.at(idx) == sl@[self.addr(idx) - self.base()]
            },
    {
        if self.is_contiguous() {
            let n = self.len();
            Some(slice_range(self.buf_ref().as_slice(), self.ptr, self.ptr + n))
        } else {
            None
        }
    }

    /// The elements in row-major order, read one multi-index at a time.
    pub(crate) fn collect_flat(&self) -> (r: Vec<A>)
        requires
            self.wf(),
        ensures
            r@ == self.flat(),
    {
        let n = self.len();
        let ds = default_strides_of(&self.dim);
        let mut r: Vec<A> = Vec::new();
        let mut i: usize = 0;
        while i < n
            invariant
                i <= n,
                n as nat == self.count(),
                self.wf(),
                strides_are(ds@, default_strides(self.dims())),
                r@ == self.flat().take(i as int),
            decreases n - i,
        {
            let idx = unravel_index(&self.dim, &ds, i);
            let x = *self.uget(&idx);
            r.push(x);
            i = i + 1;
            assert(r@ =~= self.flat().take(i as int));
        }
        assert(self.flat().take(n as int) =~= self.flat());
        r
    }

    /// Under a standard layout the element at row-major position `i` sits at
    /// buffer position `base + i`.
    pub(crate) proof fn lemma_standard_position(&self, i: int)
        requires
            self.wf(),
            standard_layout(self.dims(), self.steps()),
            0 <= i < self.count(),
        ensures
            self.addr(unravel(self.dims(), i)) == self.base() + i,
            self.flat()[i] == self.buffer()[self.base() + i],
            self.base() + i < self.buffer().len(),
    {
        lemma_unravel(self.dims(), i);
        lemma_default_offset_is_ravel(self.dims(), unravel(self.dims(), i), self.steps());
        assert(0 <= self.addr(unravel(self.dims(), i)) < self.buffer().len());
    }

    /// The elements as a contiguous sequence in row-major order, when the
    /// layout is standard; `None` otherwise.
    pub fn as_slice(&self) -> (r: Option<&[A]>)
        requires
            self.wf(),
        ensures
            r is Some <==> standard_layout(self.dims(), self.steps()),
            r matches Some(sl) ==> sl@ == self.flat(),
    {
        if self.is_standard_layout() {
            let n = self.len();
            proof {
                if n > 0 {
                    self.lemma_standard_position(n - 1);
                }
                assert forall|i: int| 0 <= i < n implies #[trigger] self.flat()[i] == self.buffer().subrange(
                    self.base(),
                    self.base() + n,
                )[i] by {
                    self.lemma_standard_position(i);
                }
                assert(self.flat() =~= self.buffer().subrange(self.base(), self.base() + n));
            }
            Some(slice_range(self.buf_ref().as_slice(), self.ptr, self.ptr + n))
        } else {
            None
        }
    }

    /// An owned copy: the same elements under the same shape, in row-major layout.
    pub fn to_owned(&self) -> (r: ArrayBase<'a, A>)
        requires
            self.wf(),
        ensures
            r.wf(),
            r.mode() == Ownership::Exclusive,
            r.dims() == self.dims(),
            r.same_elements(self),
            r.flat() == self.flat(),
            crate::shape::contiguous_layout(self.dims(), self.steps()) ==> r.steps() == self.steps(),
            !crate::shape::contiguous_layout(self.dims(), self.steps()) ==> strides_are(
                r.steps(),
                default_strides(self.dims()),
            ),
    {
        match self.as_slice_memory_order() {
            Some(sl) => {
                let v = copy_vec_of_slice(sl);
                let r = self.with_layout_of(v);
                proof {
                    assert forall|idx: Seq<int>| valid_index(self.dims(), idx) implies #[trigger] r.at(idx) == self.at(idx) by {}
                    r.lemma_same_elements_same_flat(self);
                }
                r
            },
            None => {
                let r = ArrayBase::from_default_parts(copy_vec(&self.dim), self.collect_flat());
                proof {
                    r.lemma_flat_determines(self);
                }
                r
            },
        }
    }

    /// An owned array with this array's shape and strides over a buffer
    /// `v` that holds, at each position, what this array holds at `count`
    /// positions from its base on (it must be contiguous).
    pub(crate) fn with_layout_of<B: Copy>(&self, v: Vec<B>) -> (r: ArrayBase<'a, B>)
        requires
            self.wf(),
            crate::shape::contiguous_layout(self.dims(), self.steps()),
            v.len() == self.count(),
        ensures
            r.wf(),
            r.mode() == Ownership::Exclusive,
            r.dims() == self.dims(),
            r.steps() == self.steps(),
            r.base() == 0,
            r.buffer() == v@,
            forall|idx: Seq<int>| valid_index(self.dims(), idx) ==> #[trigger] r.addr(idx) == self.addr(idx) - self.base(),
    {
        let r = ArrayBase { data: Repr::Owned(v), ptr: 0, dim: copy_vec(&self.dim), strides: copy_vec(&self.strides) };
        proof {
            self.lemma_contiguous_block();
            crate::shape::lemma_size_le_nz(self.dims());
            assert forall|idx: Seq<int>| valid_index(r.dims(), idx) implies 0 <= #[trigger] r.addr(idx) < r.buffer().len() by {
                assert(self.base() <= self.addr(idx) < self.base() + self.count());
                assert(r.addr(idx) == self.addr(idx) - self.base());
            }
            assert forall|i: Seq<int>, j: Seq<int>|
                valid_index(r.dims(), i) && valid_index(r.dims(), j) && #[trigger] r.addr(i) == #[trigger] r.addr(j) implies i
                    == j by {
                assert(r.addr(i) == self.addr(i) - self.base());
                assert(r.addr(j) == self.addr(j) - self.base());
                assert(valid_index(self.dims(), i) && valid_index(self.dims(), j));
            }
        }
        r
    }

    /// A shared (copy-on-write) array with the same elements; an array that is
    /// already shared gains one more owner of its buffer instead of a copy.
    pub fn to_shared(&self) -> (r: ArrayBase<'a, A>)
        requires
            self.wf(),
        ensures
            r.wf(),
            r.mode() == Ownership::Shared,
            r.dims() == self.dims(),
            r.flat() == self.flat(),
    {
        match &self.data {
            Repr::Shared(rc) => {
                let r = ArrayBase {
                    data: Repr::Shared(Rc::clone(rc)),
                    ptr: self.ptr,
                    dim: copy_vec(&self.dim),
                    strides: copy_vec(&self.strides),
                };
                proof {
                    r.lemma_same_layout(self);
                }
                r
            },
            _ => self.to_owned().into_shared(),
        }
    }

    /// The same array with its buffer under shared ownership, without copying.
    pub fn into_shared(self) -> (r: ArrayBase<'a, A>)
        requires
            self.wf(),
            self.mode() == Ownership::Exclusive || self.mode() == Ownership::Shared,
        ensures
            r.wf(),
            r.mode() == Ownership::Shared,
            r.buffer() == self.buffer(),
            r.base() == self.base(),
            r.dims() == self.dims(),
            r.steps() == self.steps(),
            r.flat() == self.flat(),
    {
        let ArrayBase { data, ptr, dim, strides } = self;
        let data = match data {
            Repr::Owned(v) => Repr::Shared(Rc::new(v)),
            Repr::Shared(rc) => Repr::Shared(rc),
            Repr::View(v) => Repr::View(v),
            Repr::ViewMut(v) => Repr::ViewMut(v),
        };
        let r = ArrayBase { data, ptr, dim, strides };
        proof {
            r.lemma_same_layout(&self);
        }
        r
    }
}

impl<'a, A: Copy> ArrayBase<'a, A> {
    /// Storage over the same contents: a shared buffer or a read-only borrow
    /// is shared again, an exclusive buffer or a mutable borrow is copied.
    fn share_data(&self) -> (r: Repr<'a, A>)
        ensures
            r.buf() == self.buffer(),
            self.mode() == Ownership::Shared ==> r.mode() == Ownership::Shared,
            self.mode() == Ownership::View ==> r.mode() == Ownership::View,
            self.mode() == Ownership::Exclusive || self.mode() == Ownership::ViewMut ==> r.mode()
                == Ownership::Exclusive,
    {
        match &self.data {
            Repr::Owned(v) => Repr::Owned(copy_vec(v)),
            Repr::Shared(rc) => Repr::Shared(Rc::clone(rc)),
            Repr::View(v) => Repr::View(*v),
            Repr::ViewMut(v) => Repr::Owned(copy_vec(&**v)),
        }
    }

    /// A standard-layout array read under another shape of the same size
    /// has its row-major order unchanged.
    proof fn lemma_standard_reshape(&self, r: &ArrayBase<'a, A>)
        requires
            self.wf(),
            standard_layout(self.dims(), self.steps()),
            r.buffer() == self.buffer(),
            r.base() == self.base(),
            r.dims().len() == r.steps().len(),
            shape_fits(r.dims()),
            size(r.dims()) == self.count(),
            strides_are(r.steps(), default_strides(r.dims())),
        ensures
            r.wf(),
            r.flat() == self.flat(),
    {
        lemma_default_is_standard(r.dims(), r.steps());
        r.lemma_standard_no_alias();
        if self.count() > 0 {
            self.lemma_standard_position(self.count() - 1);
        }
        assert forall|idx: Seq<int>| valid_index(r.dims(), idx) implies 0 <= #[trigger] r.addr(idx)
            < r.buffer().len() by {
            lemma_default_offset_is_ravel(r.dims(), idx, r.steps());
            lemma_ravel_bounds(r.dims(), idx);
        }
        assert forall|i: int| 0 <= i < r.count() implies #[trigger] r.flat()[i] == self.flat()[i] by {
            lemma_unravel(r.dims(), i);
            lemma_default_offset_is_ravel(r.dims(), unravel(r.dims(), i), r.steps());
            self.lemma_standard_position(i);
        }
        assert(r.flat() =~= self.flat());
    }

    /// The same elements in row-major order under `shape`, which must have
    /// the same number of elements. Shares the data when the layout is
    /// standard, and copies it into a fresh row-major buffer otherwise.
    pub fn reshape(&self, shape: Vec<usize>) -> (r: ArrayBase<'a, A>)
        requires
            self.wf(),
            shape_fits(shape@),
            size(shape@) == self.count(),
        ensures
            r.wf(),
            r.dims() == shape@,
            r.flat() == self.flat(),
            strides_are(r.steps(), default_strides(shape@)),
            standard_layout(self.dims(), self.steps()) ==> r.base() == self.base() && r.buffer() == self.buffer(),
            self.mode() == Ownership::Shared ==> r.mode() == Ownership::Shared,
    {
        if self.is_standard_layout() {
            let strides = default_strides_of(&shape);
            let r = ArrayBase { data: self.share_data(), ptr: self.ptr, dim: shape, strides };
            proof {
                crate::shape::lemma_default_strides_len(r.dims());
                self.lemma_standard_reshape(&r);
            }
            r
        } else {
            let v = self.collect_flat();
            let a = ArrayBase::from_default_parts(shape, v);
            let ArrayBase { data, ptr, dim, strides } = a;
            let data = match data {
                Repr::Owned(v) => if self.is_shared() { Repr::Shared(Rc::new(v)) } else { Repr::Owned(v) },
                other => other,
            };
            let r = ArrayBase { data, ptr, dim, strides };
            proof {
                r.lemma_same_layout(&a);
            }
            r
        }
    }

    fn is_shared(&self) -> (r: bool)
        ensures
            r == (self.mode() == Ownership::Shared),
    {
        match &self.data {
            Repr::Shared(_) => true,
            _ => false,
        }
    }

    /// Under a column-major layout the element at column-major position `i`
    /// sits at buffer position `base + i`.
    proof fn lemma_fortran_position(&self, i: int)
        requires
            self.fits_in(self.buffer().len() as int),
            fortran_layout(self.dims(), self.steps()),
            0 <= i < self.count(),
        ensures
            valid_index(self.dims(), unravel(self.dims().reverse(), i).reverse()),
            self.addr(unravel(self.dims().reverse(), i).reverse()) == self.base() + i,
            self.flat_f()[i] == self.buffer()[self.base() + i],
            self.base() + i < self.buffer().len(),
    {
        let d = self.dims();
        let s = self.steps();
        crate::shape::lemma_size_reverse(d);
        crate::shape::lemma_fortran_reversed(d, s);
        lemma_unravel(d.reverse(), i);
        let u = unravel(d.reverse(), i);
        crate::shape::lemma_valid_reverse(d.reverse(), u);
        assert(d.reverse().reverse() =~= d);
        crate::shape::lemma_offset_reverse(u.reverse(), s);
        assert(u.reverse().reverse() =~= u);
        lemma_default_offset_is_ravel(d.reverse(), u, s.reverse());
        assert(0 <= self.addr(u.reverse()) < self.buffer().len());
    }

    /// A column-major array read under another shape of the same size with
    /// column-major strides has its column-major order unchanged.
    proof fn lemma_fortran_reshape(&self, r: &ArrayBase<'a, A>)
        requires
            self.wf(),
            fortran_layout(self.dims(), self.steps()),
            r.buffer() == self.buffer(),
            r.base() == self.base(),
            r.mode() == self.mode(),
            r.dims().len() == r.steps().len(),
            shape_fits(r.dims()),
            size(r.dims()) == self.count(),
            strides_are(r.steps(), crate::shape::fortran_strides(r.dims())),
        ensures
            r.wf(),
            r.flat_f() == self.flat_f(),
    {
        let nd = r.dims();
        let rs = r.steps();
        crate::shape::lemma_size_reverse(nd);
        if self.count() > 0 {
            self.lemma_fortran_position(self.count() - 1);
        }
        // r's layout is the row-major one of its reversed axes
        crate::shape::lemma_default_strides_len(nd.reverse());
        assert(standard_layout(nd.reverse(), rs.reverse())) by {
            if nd.len() > 1 {
                crate::shape::lemma_fortran_strides_layout(nd, rs);
                crate::shape::lemma_fortran_reversed(nd, rs);
            } else if nd.len() == 1 {
                assert(nd.reverse() =~= nd);
                assert(rs.reverse() =~= rs);
                assert(crate::shape::fortran_strides(nd)[0] == size(nd.subrange(0, 0)) as int);
                assert(nd.subrange(0, 0) =~= Seq::<usize>::empty());
                assert(nd.drop_first() =~= Seq::<usize>::empty());
                assert(default_strides(nd)[0] == size(nd.drop_first()) as int);
            }
        }
        assert forall|idx: Seq<int>| valid_index(nd, idx) implies r.addr(idx) == r.base() + ravel(nd.reverse(), idx.reverse())
            && 0 <= ravel(nd.reverse(), idx.reverse()) < self.count() by {
            crate::shape::lemma_valid_reverse(nd, idx);
            crate::shape::lemma_offset_reverse(idx, rs);
            lemma_default_offset_is_ravel(nd.reverse(), idx.reverse(), rs.reverse());
            lemma_ravel_bounds(nd.reverse(), idx.reverse());
        }
        assert forall|idx: Seq<int>| valid_index(r.dims(), idx) implies 0 <= #[trigger] r.addr(idx) < r.buffer().len() by {}
        if r.mode() != Ownership::View {
            assert forall|x: Seq<int>, y: Seq<int>|
                valid_index(r.dims(), x) && valid_index(r.dims(), y) && #[trigger] r.addr(x) == #[trigger] r.addr(y) implies x
                    == y by {
                crate::shape::lemma_valid_reverse(nd, x);
                crate::shape::lemma_valid_reverse(nd, y);
                crate::shape::lemma_ravel_injective(nd.reverse(), x.reverse(), y.reverse());
                assert(x =~= x.reverse().reverse());
                assert(y =~= y.reverse().reverse());
            }
        }
        assert forall|i: int| 0 <= i < r.count() implies #[trigger] r.flat_f()[i] == self.flat_f()[i] by {
            self.lemma_fortran_position(i);
            lemma_unravel(nd.reverse(), i);
            let u = unravel(nd.reverse(), i);
            crate::shape::lemma_valid_reverse(nd.reverse(), u);
            assert(nd.reverse().reverse() =~= nd);
            assert(u.reverse().reverse() =~= u);
        }
        assert(r.flat_f() =~= self.flat_f());
    }

    /// Whether the layout is column-major on every axis of extent other than
    /// 1, for an array of at least two axes.
    fn is_fortran_layout(&self) -> (r: bool)
        requires
            self.wf(),
        ensures
            r == fortran_layout(self.dims(), self.steps()),
    {
        if self.dim.len() <= 1 {
            return false;
        }
        let f = crate::shape::fortran_strides_of(&self.dim);
        let mut k: usize = 0;
        while k < self.dim.len()
            invariant
                k <= self.dim.len(),
                self.wf(),
                self.dim.len() > 1,
                strides_are(f@, crate::shape::fortran_strides(self.dims())),
                forall|q: int|
                    0 <= q < k && self.dims()[q] != 1 ==> self.steps()[q] as int
                        == #[trigger] crate::shape::fortran_strides(self.dims())[q],
            decreases self.dim.len() - k,
        {
            if self.dim[k] != 1 && self.strides[k] != f[k] {
                assert(self.dims()[k as int] != 1 && self.steps()[k as int] as int != crate::shape::fortran_strides(
                    self.dims(),
                )[k as int]);
                return false;
            }
            k = k + 1;
        }
        true
    }

    /// The same elements under `shape` without copying. A row-major array
    /// keeps its row-major order and a column-major one its column-major
    /// order. Fails with `IncompatibleShape` when the element counts differ,
    /// and with `IncompatibleLayout` when the layout is neither.
    pub fn into_shape(self, shape: Vec<usize>) -> (r: Result<ArrayBase<'a, A>, ShapeError>)
        requires
            self.wf(),
        ensures
            !(shape_fits(shape@) && size(shape@) == self.count()) ==> r == Err::<ArrayBase<'a, A>, ShapeError>(
                ShapeError { kind: ErrorKind::IncompatibleShape },
            ),
            (shape_fits(shape@) && size(shape@) == self.count()) ==> (r is Ok <==> (standard_layout(
                self.dims(),
                self.steps(),
            ) || fortran_layout(self.dims(), self.steps()))),
            (shape_fits(shape@) && size(shape@) == self.count() && !standard_layout(self.dims(), self.steps())
                && !fortran_layout(self.dims(), self.steps())) ==> r == Err::<ArrayBase<'a, A>, ShapeError>(
                ShapeError { kind: ErrorKind::IncompatibleLayout },
            ),
            r matches Ok(a) ==> {
                &&& a.wf()
                &&& a.dims() == shape@
                &&& a.buffer() == self.buffer()
                &&& a.base() == self.base()
                &&& a.mode() == self.mode()
                &&& standard_layout(self.dims(), self.steps()) ==> a.flat() == self.flat() && strides_are(
                    a.steps(),
                    default_strides(shape@),
                )
                &&& !standard_layout(self.dims(), self.steps()) ==> a.flat_f() == self.flat_f() && strides_are(
                    a.steps(),
                    crate::shape::fortran_strides(shape@),
                )
            },
    {
        match size_checked(&shape) {
            Some(n) => {
                if n != self.len() {
                    return Err(ShapeError { kind: ErrorKind::IncompatibleShape });
                }
            },
            None => {
                return Err(ShapeError { kind: ErrorKind::IncompatibleShape });
            },
        }
        if self.is_standard_layout() {
            let strides = default_strides_of(&shape);
            let ghost old_self = self;
            let ArrayBase { data, ptr, dim, strides: _ } = self;
            let r = ArrayBase { data, ptr, dim: shape, strides };
            proof {
                crate::shape::lemma_default_strides_len(r.dims());
                old_self.lemma_standard_reshape(&r);
            }
            Ok(r)
        } else if self.is_fortran_layout() {
            let strides = crate::shape::fortran_strides_of(&shape);
            let ghost old_self = self;
            let ArrayBase { data, ptr, dim, strides: _ } = self;
            let r = ArrayBase { data, ptr, dim: shape, strides };
            proof {
                old_self.lemma_fortran_reshape(&r);
            }
            Ok(r)
        } else {
            Err(ShapeError { kind: ErrorKind::IncompatibleLayout })
        }
    }
}

impl<'a, A: Copy> ArrayBase<'a, A> {
    /// A read-only view of `shape` that repeats this array along the axes
    /// where it has extent 1 or no axis at all; `None` when the shapes are
    /// not compatible or `shape` is too large.
    pub fn broadcast<'b>(&'b self, shape: Vec<usize>) -> (r: Option<ArrayBase<'b, A>>)
        requires
            self.wf(),
        ensures
            r is Some <==> broadcast_compatible(self.dims(), shape@) && shape_fits(shape@),
            r matches Some(v) ==> {
                &&& v.wf()
                &&& v.mode() == Ownership::View
                &&& v.dims() == shape@
                &&& v.buffer() == self.buffer()
                &&& v.base() == self.base()
                &&& v.steps() == broadcast_strides(self.dims(), shape@, self.steps())
                &&& forall|idx: Seq<int>|
                    valid_index(shape@, idx) ==> #[trigger] v.at(idx) == self.at(
                        broadcast_index(self.dims(), shape@, idx),
                    )
            },
    {
        let n = self.dim.len();
        let m = shape.len();
        if m < n {
            return None;
        }
        if size_checked(&shape).is_none() {
            return None;
        }
        let d = m - n;
        let mut ns: Vec<isize> = Vec::new();
        while ns.len() < d
            invariant
                ns.len() <= d,
                d == m - n,
                m == shape.len(),
                n == self.dim.len(),
                n <= m,
                forall|j: int| 0 <= j < ns.len() ==> ns@[j] == #[trigger] broadcast_strides(self.dims(), shape@, self.steps())[j],
            decreases d - ns.len(),
        {
            ns.push(0);
        }
        let mut k: usize = 0;
        while k < n
            invariant
                k <= n,
                ns.len() == d + k,
                d == m - n,
                m == shape.len(),
                n == self.dim.len(),
                self.wf(),
                forall|j: int| 0 <= j < ns.len() ==> ns@[j] == #[trigger] broadcast_strides(self.dims(), shape@, self.steps())[j],
                forall|q: int|
                    0 <= q < k ==> #[trigger] self.dims()[q] == shape@[q + d] || self.dims()[q] == 1,
            decreases n - k,
        {
            if self.dim[k] == shape[k + d] {
                ns.push(self.strides[k]);
            } else if self.dim[k] == 1 {
                ns.push(0);
            } else {
                assert(!broadcast_compatible(self.dims(), shape@)) by {
                    assert(!(self.dims()[k as int] == shape@[k + m - n] || self.dims()[k as int] == 1));
                }
                return None;
            }
            k = k + 1;
        }
        let r = ArrayBase { data: Repr::View(self.buf_ref()), ptr: self.ptr, dim: shape, strides: ns };
        proof {
            assert(r.steps() =~= broadcast_strides(self.dims(), shape@, self.steps()));
            assert forall|idx: Seq<int>| valid_index(r.dims(), idx) implies 0 <= #[trigger] r.addr(idx)
                < r.buffer().len() && r.at(idx) == self.at(broadcast_index(self.dims(), shape@, idx)) by {
                lemma_broadcast_offset(self.dims(), shape@, self.steps(), idx);
                assert(0 <= self.addr(broadcast_index(self.dims(), shape@, idx)) < self.buffer().len());
            }
        }
        Some(r)
    }
}

impl<'a, A: Copy> ArrayBase<'a, A> {
    /// Position of the element at the zero multi-index.
    pub(crate) fn base_pos(&self) -> (r: usize)
        ensures
            r as int == self.base(),
    {
        self.ptr
    }

    /// Moves the buffer out for writing, leaving an empty one in its place.
    /// A shared buffer with other owners is copied first.
    pub(crate) fn take_buf(&mut self) -> (v: Vec<A>)
        requires
            old(self).mode() != Ownership::View,
        ensures
            v@ == old(self).buffer(),
            final(self).mode() == Ownership::ViewMut ==> *final(final(self).lender()) == *final(old(self).lender()),
            final(self).mode() == old(self).mode(),
            final(self).base() == old(self).base(),
            final(self).dims() == old(self).dims(),
            final(self).steps() == old(self).steps(),
    {
        let mut e: Vec<A> = Vec::new();
        match &mut self.data {
            Repr::Owned(b) => {
                std::mem::swap(b, &mut e);
                e
            },
            Repr::Shared(rc) => {
                let inner = rc_make_mut(rc);
                std::mem::swap(inner, &mut e);
                e
            },
            Repr::View(_) => e,
            Repr::ViewMut(m) => {
                std::mem::swap(&mut **m, &mut e);
                e
            },
        }
    }

    /// Puts a buffer back after writing.
    pub(crate) fn put_buf(&mut self, v: Vec<A>)
        requires
            old(self).mode() != Ownership::View,
        ensures
            final(self).buffer() == v@,
            final(self).mode() == Ownership::ViewMut ==> final(self).buffer() == final(self).lender()@
                && *final(final(self).lender()) == *final(old(self).lender()),
            final(self).mode() == old(self).mode(),
            final(self).base() == old(self).base(),
            final(self).dims() == old(self).dims(),
            final(self).steps() == old(self).steps(),
    {
        match &mut self.data {
            Repr::Owned(b) => {
                *b = v;
            },
            Repr::Shared(rc) => {
                let inner = rc_make_mut(rc);
                *inner = v;
            },
            Repr::View(_) => {},
            Repr::ViewMut(m) => {
                **m = v;
            },
        }
    }

    /// Makes the buffer exclusively held: a shared buffer with other owners
    /// is copied, so that writing cannot be seen through them; a buffer held
    /// alone is left as it is. The elements and the layout are unchanged.
    pub fn ensure_unique(&mut self)
        requires
            old(self).wf(),
            old(self).mode() != Ownership::View,
        ensures
            final(self).wf(),
            final(self).buffer() == old(self).buffer(),
            old(self).mode() == Ownership::ViewMut ==> *final(final(self).lender()) == *final(old(self).lender()),
            final(self).mode() == old(self).mode(),
            final(self).base() == old(self).base(),
            final(self).dims() == old(self).dims(),
            final(self).steps() == old(self).steps(),
    {
        match &mut self.data {
            Repr::Shared(rc) => {
                let inner = rc_make_mut(rc);
                let _ = inner.len();
            },
            _ => {},
        }
        proof {
            final(self).lemma_same_layout(old(self));
        }
    }
}

impl<'a, A> ArrayBase<'a, A> {
    /// Replaces base, extents and strides, keeping the storage.
    pub(crate) fn set_layout(&mut self, ptr: usize, dim: Vec<usize>, strides: Vec<isize>)
        ensures
            final(self).buffer() == old(self).buffer(),
            final(self).mode() == old(self).mode(),
            final(self).base() == ptr as int,
            final(self).dims() == dim@,
            final(self).steps() == strides@,
            final(self).lender() == old(self).lender(),
    {
        self.ptr = ptr;
        self.dim = dim;
        self.strides = strides;
    }
}

impl<'a, A: Copy> ArrayBase<'a, A> {
    /// A read-write view of the same elements. A shared array first takes
    /// its buffer into sole ownership (copying it if it has other owners).
    pub fn view_mut<'b>(&'b mut self) -> (r: ArrayBase<'b, A>)
        requires
            old(self).wf(),
            old(self).mode() != Ownership::View,
        ensures
            r.wf(),
            r.mode() == Ownership::ViewMut,
            r.buffer() == old(self).buffer(),
            r.base() == old(self).base(),
            r.dims() == old(self).dims(),
            r.steps() == old(self).steps(),
            final(self).mode() == old(self).mode(),
            final(self).base() == old(self).base(),
            final(self).dims() == old(self).dims(),
            final(self).steps() == old(self).steps(),
            final(self).buffer() == (*final(r.lender()))@,
            old(self).mode() == Ownership::ViewMut ==> *final(final(self).lender()) == *final(old(self).lender()),
    {
        let dim = copy_vec(&self.dim);
        let strides = copy_vec(&self.strides);
        let ptr = self.ptr;
        let data: Repr<'b, A> = match &mut self.data {
            Repr::Owned(v) => Repr::ViewMut(v),
            Repr::Shared(rc) => Repr::ViewMut(rc_make_mut(rc)),
            Repr::View(v) => {
                proof {
                    assert(false);
                }
                Repr::View(*v)
            },
            Repr::ViewMut(v) => Repr::ViewMut(&mut **v),
        };
        let r = ArrayBase { data, ptr, dim, strides };
        proof {
            r.lemma_same_layout(old(self));
        }
        r
    }
}

/// Relies on `Rc::make_mut`: when other handles share the vector it is
/// cloned first (a clone of `Copy` elements is equal), and the vector that
/// the handle then holds alone is lent out, so what is written through the
/// borrow is what the handle holds afterwards.
#[verifier::external_body]
fn rc_make_mut<A: Copy>(rc: &mut Rc<Vec<A>>) -> (r: &mut Vec<A>)
    ensures
        r@ == old(rc)@,
        final(rc)@ == final(r)@,
{
    Rc::make_mut(rc)
}

impl<'a, A> ArrayBase<'a, A> {
    /// The element at a valid multi-index is the one at its row-major
    /// position in `flat`.
    pub proof fn lemma_at_is_flat(&self, idx: Seq<int>)
        requires
            valid_index(self.dims(), idx),
        ensures
            0 <= ravel(self.dims(), idx) < self.count(),
            self.at(idx) == self.flat()[ravel(self.dims(), idx)],
    {
        let d = self.dims();
        lemma_ravel_bounds(d, idx);
        let i = ravel(d, idx);
        lemma_unravel(d, i);
        crate::shape::lemma_ravel_injective(d, unravel(d, i), idx);
    }

    /// Two arrays of the same shape with the same elements in row-major
    /// order hold the same element at every multi-index.
    pub proof fn lemma_flat_determines<'b>(&self, other: &ArrayBase<'b, A>)
        requires
            self.dims() == other.dims(),
            self.flat() == other.flat(),
        ensures
            self.same_elements(other),
    {
        assert forall|idx: Seq<int>| valid_index(self.dims(), idx) implies #[trigger] self.at(idx) == other.at(idx) by {
            self.lemma_at_is_flat(idx);
            other.lemma_at_is_flat(idx);
        }
    }

    /// Two arrays with the same shape and the same element at every
    /// multi-index list the same elements in row-major order, however
    /// their data are laid out.
    pub proof fn lemma_same_elements_same_flat<'b>(&self, other: &ArrayBase<'b, A>)
        requires
            self.same_elements(other),
        ensures
            self.flat() == other.flat(),
    {
        assert forall|i: int| 0 <= i < self.count() implies #[trigger] self.flat()[i] == other.flat()[i] by {
            lemma_unravel(self.dims(), i);
        }
        assert(self.flat() =~= other.flat());
    }
}

/// Reshaping to another shape and back to the first one gives back the
/// same element at every multi-index: `first` is what reshaping `a`
/// gives and `second` what reshaping `first` to `a`'s shape gives.
pub proof fn lemma_reshape_round_trip<'a, 'b, 'c, A>(
    a: &ArrayBase<'a, A>,
    first: &ArrayBase<'b, A>,
    second: &ArrayBase<'c, A>,
)
    requires
        first.flat() == a.flat(),
        second.dims() == a.dims(),
        second.flat() == first.flat(),
    ensures
        second.same_elements(a),
        second.flat() == a.flat(),
{
    second.lemma_flat_determines(a);
}

impl<'a, A: Copy> ArrayBase<'a, A> {
    /// Exchanges the elements at `index1` and `index2`, which may be equal.
    pub fn swap(&mut self, index1: &Vec<usize>, index2: &Vec<usize>)
        requires
            old(self).wf(),
            old(self).mode() != Ownership::View,
            valid_index(old(self).dims(), ix(index1@)),
            valid_index(old(self).dims(), ix(index2@)),
        ensures
            final(self).wf(),
            final(self).mode() == old(self).mode(),
            final(self).base() == old(self).base(),
            final(self).dims() == old(self).dims(),
            final(self).steps() == old(self).steps(),
            old(self).writes_within(final(self)),
            old(self).mode() == Ownership::ViewMut ==> *final(final(self).lender()) == *final(old(self).lender()),
            final(self).at(ix(index1@)) == old(self).at(ix(index2@)),
            final(self).at(ix(index2@)) == old(self).at(ix(index1@)),
            forall|idx: Seq<int>|
                valid_index(old(self).dims(), idx) && idx != ix(index1@) && idx != ix(index2@)
                    ==> #[trigger] final(self).at(idx) == old(self).at(idx),
    {
        let ghost a0 = *self;
        let len = Ghost(self.buffer().len() as int);
        let p1 = self.position(index1, len);
        let p2 = self.position(index2, len);
        let mut buf = self.take_buf();
        let x = buf[p1];
        let y = buf[p2];
        buf.set(p1, y);
        buf.set(p2, x);
        self.put_buf(buf);
        proof {
            assert forall|idx: Seq<int>| valid_index(self.dims(), idx) implies 0 <= #[trigger] self.addr(idx)
                < self.buffer().len() by {
                assert(self.addr(idx) == a0.addr(idx));
            }
            assert forall|i: Seq<int>, j: Seq<int>|
                valid_index(self.dims(), i) && valid_index(self.dims(), j) && #[trigger] self.addr(i)
                    == #[trigger] self.addr(j) implies i == j by {
                assert(self.addr(i) == a0.addr(i));
                assert(self.addr(j) == a0.addr(j));
            }
            assert forall|idx: Seq<int>|
                valid_index(a0.dims(), idx) && idx != ix(index1@) && idx != ix(index2@) implies #[trigger] self.at(idx)
                    == a0.at(idx) by {
                assert(self.addr(idx) == a0.addr(idx));
                assert(a0.addr(idx) != a0.addr(ix(index1@)));
                assert(a0.addr(idx) != a0.addr(ix(index2@)));
            }
            assert(self.addr(ix(index1@)) == a0.addr(ix(index1@)));
            assert(self.addr(ix(index2@)) == a0.addr(ix(index2@)));
        }
    }

    /// Writing one element at a valid multi-index of an array that never
    /// names a position twice changes that element only.
    proof fn lemma_write_one(&self, b: &Self, idx: Seq<int>, val: A)
        requires
            self.wf(),
            self.mode() != Ownership::View,
            valid_index(self.dims(), idx),
            b.mode() == self.mode(),
            b.dims() == self.dims(),
            b.steps() == self.steps(),
            b.base() == self.base(),
            b.buffer() == self.buffer().update(self.addr(idx), val),
        ensures
            b.wf(),
            b.at(idx) == val,
            forall|j: Seq<int>| valid_index(self.dims(), j) && j != idx ==> #[trigger] b.at(j) == self.at(j),
    {
        assert forall|j: Seq<int>| valid_index(b.dims(), j) implies 0 <= #[trigger] b.addr(j) < b.buffer().len() by {
            assert(b.addr(j) == self.addr(j));
        }
        assert forall|i: Seq<int>, j: Seq<int>|
            valid_index(b.dims(), i) && valid_index(b.dims(), j) && #[trigger] b.addr(i) == #[trigger] b.addr(j) implies i == j by {
            assert(b.addr(i) == self.addr(i));
            assert(b.addr(j) == self.addr(j));
        }
        assert(b.addr(idx) == self.addr(idx));
        assert forall|j: Seq<int>| valid_index(self.dims(), j) && j != idx implies #[trigger] b.at(j) == self.at(j) by {
            assert(b.addr(j) == self.addr(j));
            assert(self.addr(j) != self.addr(idx));
        }
    }

    /// A mutable reference to the element at `index`, or `None` when the
    /// index is outside the shape. A shared array first takes its buffer
    /// into sole ownership (copying it if it has other owners).
    pub fn get_mut(&mut self, index: &Vec<usize>) -> (r: Option<&mut A>)
        requires
            old(self).wf(),
            old(self).mode() != Ownership::View,
        ensures
            r is Some <==> valid_index(old(self).dims(), ix(index@)),
            r is None ==> *final(self) == *old(self),
            r matches Some(x) ==> {
                &&& *x == old(self).at(ix(index@))
                &&& final(self).wf()
                &&& final(self).mode() == old(self).mode()
                &&& old(self).mode() == Ownership::ViewMut ==> *final(final(self).lender()) == *final(old(self).lender())
                &&& old(self).writes_within(final(self))
                &&& final(self).dims() == old(self).dims()
                &&& final(self).steps() == old(self).steps()
                &&& final(self).base() == old(self).base()
                &&& final(self).at(ix(index@)) == *final(x)
                &&& forall|idx: Seq<int>|
                    valid_index(old(self).dims(), idx) && idx != ix(index@) ==> #[trigger] final(self).at(idx)
                        == old(self).at(idx)
            },
    {
        if !self.index_in_range(index) {
            return None;
        }
        let p = self.position(index, Ghost(self.buffer().len() as int));
        let ghost a0 = *self;
        proof {
            assert forall|b: Self|
                b.mode() == a0.mode() && b.dims() == a0.dims() && b.steps() == a0.steps() && b.base() == a0.base()
                    && (b.mode() == Ownership::ViewMut ==> b.buffer() == b.lender()@)
                    && #[trigger] b.buffer() == a0.buffer().update(p as int, b.buffer()[p as int]) implies b.wf()
                    && a0.writes_within(&b)
                    && forall|j: Seq<int>| valid_index(a0.dims(), j) && j != ix(index@) ==> #[trigger] b.at(j) == a0.at(j) by {
                a0.lemma_write_one(&b, ix(index@), b.buffer()[p as int]);
                assert forall|q: int| 0 <= q < a0.buffer().len() && !a0.addressed(q) implies #[trigger] b.buffer()[q]
                    == a0.buffer()[q] by {
                    if q == p {
                        assert(a0.addressed(q));
                    }
                }
            }
        }
        match &mut self.data {
            Repr::Owned(v) => {
                let x = &mut v[p];
                Some(x)
            },
            Repr::Shared(rc) => {
                let v = rc_make_mut(rc);
                let x = &mut v[p];
                Some(x)
            },
            Repr::ViewMut(v) => {
                let x = &mut v[p];
                Some(x)
            },
            _ => {
                proof {
                    assert(false);
                }
                None
            },
        }
    }

    /// A mutable reference to the element at a multi-index that the caller
    /// guarantees is valid.
    pub fn uget_mut(&mut self, index: &Vec<usize>) -> (r: &mut A)
        requires
            old(self).wf(),
            old(self).mode() != Ownership::View,
            valid_index(old(self).dims(), ix(index@)),
        ensures
            *r == old(self).at(ix(index@)),
            final(self).wf(),
            final(self).dims() == old(self).dims(),
            final(self).steps() == old(self).steps(),
            final(self).base() == old(self).base(),
            final(self).at(ix(index@)) == *final(r),
            final(self).mode() == old(self).mode(),
            old(self).mode() == Ownership::ViewMut ==> *final(final(self).lender()) == *final(old(self).lender()),
            old(self).writes_within(final(self)),
            forall|idx: Seq<int>|
                valid_index(old(self).dims(), idx) && idx != ix(index@) ==> #[trigger] final(self).at(idx)
                    == old(self).at(idx),
    {
        self.get_mut(index).unwrap()
    }

    /// The buffer of an array that may write, lent out whole.
    fn buf_mut<'b>(&'b mut self) -> (r: &'b mut Vec<A>)
        requires
            old(self).mode() != Ownership::View,
        ensures
            r@ == old(self).buffer(),
            final(self).buffer() == final(r)@,
            final(self).mode() == old(self).mode(),
            final(self).base() == old(self).base(),
            final(self).dims() == old(self).dims(),
            final(self).steps() == old(self).steps(),
            old(self).mode() == Ownership::ViewMut ==> *final(final(self).lender()) == *final(old(self).lender())
                && final(self).buffer() == final(self).lender()@,
    {
        match &mut self.data {
            Repr::Owned(v) => v,
            Repr::Shared(rc) => rc_make_mut(rc),
            Repr::ViewMut(m) => &mut **m,
            Repr::View(_) => unreached(),
        }
    }

    /// The elements as a mutable contiguous sequence in row-major order,
    /// when the layout is standard; `None` otherwise. What is written to it
    /// is the array's from then on: the buffer keeps its other positions.
    pub fn as_slice_mut(&mut self) -> (r: Option<&mut [A]>)
        requires
            old(self).wf(),
            old(self).mode() != Ownership::View,
        ensures
            r is Some <==> standard_layout(old(self).dims(), old(self).steps()),
            r is None ==> *final(self) == *old(self),
            r matches Some(sl) ==> {
                &&& sl@ == old(self).flat()
                &&& final(self).mode() == old(self).mode()
                &&& final(self).base() == old(self).base()
                &&& final(self).dims() == old(self).dims()
                &&& final(self).steps() == old(self).steps()
                &&& final(self).buffer() == old(self).buffer().subrange(0, old(self).base()) + (final(sl)@
                    + old(self).buffer().subrange(old(self).base() + old(self).count(), old(self).buffer().len() as int))
                &&& old(self).mode() == Ownership::ViewMut ==> *final(final(self).lender()) == *final(old(self).lender())
            },
    {
        if !self.is_standard_layout() {
            return None;
        }
        proof {
            let n = self.count() as int;
            if n > 0 {
                self.lemma_standard_position(n - 1);
            }
            assert forall|i: int| 0 <= i < n implies #[trigger] self.flat()[i] == self.buffer().subrange(
                self.base(),
                self.base() + n,
            )[i] by {
                self.lemma_standard_position(i);
            }
            assert(self.flat() =~= self.buffer().subrange(self.base(), self.base() + n));
        }
        self.contiguous_slice_mut()
    }

    /// The part of the buffer that holds the elements, mutable and in memory
    /// order, when the array is contiguous; `None` otherwise. What is
    /// written to it is the array's from then on.
    pub fn as_slice_memory_order_mut(&mut self) -> (r: Option<&mut [A]>)
        requires
            old(self).wf(),
            old(self).mode() != Ownership::View,
        ensures
            r is Some <==> crate::shape::contiguous_layout(old(self).dims(), old(self).steps()),
            r is None ==> *final(self) == *old(self),
            r matches Some(sl) ==> {
                &&& sl@ == old(self).buffer().subrange(old(self).base(), old(self).base() + old(self).count())
                &&& forall|idx: Seq<int>|
                    valid_index(old(self).dims(), idx) ==> #[trigger] old(self).at(idx) == sl@[old(self).addr(idx)
                        - old(self).base()]
                &&& final(self).mode() == old(self).mode()
                &&& final(self).base() == old(self).base()
                &&& final(self).dims() == old(self).dims()
                &&& final(self).steps() == old(self).steps()
                &&& final(self).buffer() == old(self).buffer().subrange(0, old(self).base()) + (final(sl)@
                    + old(self).buffer().subrange(old(self).base() + old(self).count(), old(self).buffer().len() as int))
                &&& old(self).mode() == Ownership::ViewMut ==> *final(final(self).lender()) == *final(old(self).lender())
            },
    {
        if !self.is_contiguous() {
            return None;
        }
        self.contiguous_slice_mut()
    }

    fn contiguous_slice_mut(&mut self) -> (r: Option<&mut [A]>)
        requires
            old(self).wf(),
            old(self).mode() != Ownership::View,
            crate::shape::contiguous_layout(old(self).dims(), old(self).steps()),
        ensures
            r matches Some(sl) && sl@ == old(self).buffer().subrange(old(self).base(), old(self).base() + old(self).count())
                && final(self).mode() == old(self).mode() && final(self).base() == old(self).base()
                && final(self).dims() == old(self).dims() && final(self).steps() == old(self).steps()
                && final(self).buffer() == old(self).buffer().subrange(0, old(self).base()) + (final(sl)@
                + old(self).buffer().subrange(old(self).base() + old(self).count(), old(self).buffer().len() as int))
                && (old(self).mode() == Ownership::ViewMut ==> *final(final(self).lender()) == *final(old(self).lender())),
    {
        proof {
            self.lemma_contiguous_block();
        }
        let n = self.len();
        let p = self.ptr;
        let v = self.buf_mut();
        let all = v.as_mut_slice();
        let (head, rest) = all.split_at_mut(p);
        let (mid, tail) = rest.split_at_mut(n);
        proof {
            assert(final(head)@ == head@);
            assert(final(tail)@ == tail@);
        }
        Some(mid)
    }

    /// Whether both arrays are shared owners of one and the same buffer.
    pub fn is_shared_with<'b>(&self, other: &ArrayBase<'b, A>) -> (r: bool)
        ensures
            r ==> self.mode() == Ownership::Shared && other.mode() == Ownership::Shared && self.buffer()
                == other.buffer(),
    {
        match (&self.data, &other.data) {
            (Repr::Shared(x), Repr::Shared(y)) => same_allocation(x, y),
            _ => false,
        }
    }
}

/// Relies on `Rc::ptr_eq`: two handles to one allocation hold the same value.
#[verifier::external_body]
fn same_allocation<T>(x: &Rc<T>, y: &Rc<T>) -> (r: bool)
    ensures
        r ==> *x == *y,
{
    Rc::ptr_eq(x, y)
}

/// The part `[lo, hi)` of a slice.
fn slice_range<T>(s: &[T], lo: usize, hi: usize) -> (r: &[T])
    requires
        lo <= hi <= s@.len(),
    ensures
        r@ == s@.subrange(lo as int, hi as int),
{
    &s[lo..hi]
}

impl<A: Copy> ArrayBase<'static, A> {
    /// An owned array of the given shape holding `v` in row-major order;
    /// fails when the element counts differ or the shape is too large.
    pub fn from_shape_vec(shape: Vec<usize>, v: Vec<A>) -> (r: Result<Self, ShapeError>)
        ensures
            r is Ok <==> (shape_fits(shape@) && size(shape@) == v@.len()),
            r matches Ok(a) ==> {
                &&& a.wf()
                &&& a.mode() == Ownership::Exclusive
                &&& a.dims() == shape@
                &&& strides_are(a.steps(), default_strides(shape@))
                &&& a.flat() == v@
            },
            r matches Err(e) ==> e.kind == ErrorKind::IncompatibleShape,
    {
        match size_checked(&shape) {
            Some(n) => {
                if n != v.len() {
                    return Err(ShapeError { kind: ErrorKind::IncompatibleShape });
                }
            },
            None => {
                return Err(ShapeError { kind: ErrorKind::IncompatibleShape });
            },
        }
        Ok(Self::from_default_parts(shape, v))
    }

    /// An owned array of the given shape with every element equal to `x`.
    pub fn from_elem(shape: Vec<usize>, x: A) -> (r: Self)
        requires
            shape_fits(shape@),
        ensures
            r.wf(),
            r.mode() == Ownership::Exclusive,
            r.dims() == shape@,
            strides_are(r.steps(), default_strides(shape@)),
            forall|idx: Seq<int>| valid_index(shape@, idx) ==> #[trigger] r.at(idx) == x,
    {
        Self::filled(shape, x)
    }

    /// A one-dimensional owned array of the elements of `v`.
    pub fn from_vec(v: Vec<A>) -> (r: Self)
        requires
            v.len() <= isize::MAX,
        ensures
            r.wf(),
            r.mode() == Ownership::Exclusive,
            r.dims() == seq![v.len()],
            strides_are(r.steps(), default_strides(seq![v.len()])),
            r.base() == 0,
            r.buffer() == v@,
            r.flat() == v@,
    {
        let n = v.len();
        let shape = vec![n];
        proof {
            assert(shape@.drop_first() =~= Seq::<usize>::empty());
            assert(crate::shape::size_nz(shape@) == (if n == 0 { 1 } else { n as nat }) * crate::shape::size_nz(shape@.drop_first()));
            assert(size(shape@) == n as nat * size(shape@.drop_first()));
            assert(size(shape@.drop_first()) == 1);
            let x = n as nat;
            let y = size(shape@.drop_first());
            assert(x * y == x) by (nonlinear_arith)
                requires
                    y == 1,
            ;
        }
        Self::from_default_parts(shape, v)
    }
}

} // verus!
