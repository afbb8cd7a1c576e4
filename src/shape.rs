//! The shape and stride model: element counts, multi-indices, offsets and
//! the two canonical stride assignments.
use vstd::prelude::*;

verus! {

/// Number of elements of an array with extents `dims`; the empty product is 1.
pub open spec fn size(dims: Seq<usize>) -> nat
    decreases dims.len(),
{
    if dims.len() == 0 {
        1
    } else {
        dims[0] as nat * size(dims.drop_first())
    }
}

/// Product of the extents with each zero counted as one: a bound on the
/// element count of every run of consecutive axes.
pub open spec fn size_nz(dims: Seq<usize>) -> nat
    decreases dims.len(),
{
    if dims.len() == 0 {
        1
    } else {
        (if dims[0] == 0 { 1 } else { dims[0] as nat }) * size_nz(dims.drop_first())
    }
}

/// Every product of consecutive extents fits in an `isize`.
pub open spec fn shape_fits(dims: Seq<usize>) -> bool {
    size_nz(dims) <= isize::MAX
}

/// `idx` is a multi-index inside the extents `dims`.
pub open spec fn valid_index(dims: Seq<usize>, idx: Seq<int>) -> bool {
    &&& idx.len() == dims.len()
    &&& forall|k: int| 0 <= k < idx.len() ==> 0 <= #[trigger] idx[k] < dims[k]
}

/// A multi-index given as unsigned integers, read as integers.
pub open spec fn ix(idx: Seq<usize>) -> Seq<int> {
    idx.map_values(|x: usize| x as int)
}

/// The multi-index of `n` zeros.
pub open spec fn zeros(n: nat) -> Seq<int> {
    Seq::new(n, |k: int| 0int)
}

/// Σ idx[k] · strides[k]: the distance, in elements, of `idx` from the first element.
pub open spec fn offset(idx: Seq<int>, strides: Seq<isize>) -> int
    decreases idx.len(),
{
    if idx.len() == 0 || strides.len() == 0 {
        0
    } else {
        idx[0] * strides[0] + offset(idx.drop_first(), strides.drop_first())
    }
}

/// Row-major (last axis fastest) strides: the stride of axis `k` is the
/// product of the extents after it.
pub open spec fn default_strides(dims: Seq<usize>) -> Seq<int>
    decreases dims.len(),
{
    if dims.len() == 0 {
        seq![]
    } else {
        seq![size(dims.drop_first()) as int] + default_strides(dims.drop_first())
    }
}

/// Column-major (first axis fastest) strides: the stride of axis `k` is the
/// product of the extents before it.
pub open spec fn fortran_strides(dims: Seq<usize>) -> Seq<int> {
    Seq::new(dims.len(), |k: int| size(dims.subrange(0, k)) as int)
}

/// `strides` (as integers) equal `target`.
pub open spec fn strides_are(strides: Seq<isize>, target: Seq<int>) -> bool {
    &&& strides.len() == target.len()
    &&& forall|k: int| 0 <= k < strides.len() ==> strides[k] as int == #[trigger] target[k]
}

/// Position of `idx` in row-major order.
pub open spec fn ravel(dims: Seq<usize>, idx: Seq<int>) -> int
    decreases dims.len(),
{
    if dims.len() == 0 || idx.len() == 0 {
        0
    } else {
        idx[0] * size(dims.drop_first()) + ravel(dims.drop_first(), idx.drop_first())
    }
}

/// The multi-index at position `i` of row-major order.
pub open spec fn unravel(dims: Seq<usize>, i: int) -> Seq<int>
    decreases dims.len(),
{
    if dims.len() == 0 {
        seq![]
    } else {
        let inner = size(dims.drop_first()) as int;
        if inner == 0 {
            seq![0int] + unravel(dims.drop_first(), 0)
        } else {
            seq![i / inner] + unravel(dims.drop_first(), i % inner)
        }
    }
}

/// An offset splits at any axis into the offsets of the two parts.
pub proof fn lemma_offset_split(idx: Seq<int>, strides: Seq<isize>, k: int)
    requires
        idx.len() == strides.len(),
        0 <= k <= idx.len(),
    ensures
        offset(idx, strides) == offset(idx.take(k), strides.take(k)) + offset(
            idx.skip(k),
            strides.skip(k),
        ),
    decreases k,
{
    if k == 0 {
        assert(idx.skip(0) =~= idx);
        assert(strides.skip(0) =~= strides);
    } else {
        lemma_offset_split(idx.drop_first(), strides.drop_first(), k - 1);
        assert(idx.take(k).drop_first() =~= idx.drop_first().take(k - 1));
        assert(strides.take(k).drop_first() =~= strides.drop_first().take(k - 1));
        assert(idx.drop_first().skip(k - 1) =~= idx.skip(k));
        assert(strides.drop_first().skip(k - 1) =~= strides.skip(k));
    }
}

/// The zero multi-index has offset zero.
pub proof fn lemma_offset_zeros(n: nat, strides: Seq<isize>)
    ensures
        offset(zeros(n), strides) == 0,
    decreases n,
{
    if n > 0 && strides.len() > 0 {
        assert(zeros(n).drop_first() =~= zeros((n - 1) as nat));
        lemma_offset_zeros((n - 1) as nat, strides.drop_first());
        assert(zeros(n)[0] == 0);
        assert(zeros(n)[0] * strides[0] == 0);
    }
}

/// Zeroing the first `k` coordinates leaves the offset of the rest.
pub proof fn lemma_offset_zero_prefix(idx: Seq<int>, strides: Seq<isize>, k: int)
    requires
        idx.len() == strides.len(),
        0 <= k <= idx.len(),
    ensures
        offset(zeros(k as nat) + idx.skip(k), strides) == offset(idx.skip(k), strides.skip(k)),
{
    let z = zeros(k as nat) + idx.skip(k);
    lemma_offset_split(z, strides, k);
    assert(z.take(k) =~= zeros(k as nat));
    assert(z.skip(k) =~= idx.skip(k));
    lemma_offset_zeros(k as nat, strides.take(k));
}

/// Offsets agree when every axis contributes the same term.
pub proof fn lemma_offset_termwise(a: Seq<int>, sa: Seq<isize>, b: Seq<int>, sb: Seq<isize>)
    requires
        a.len() == sa.len(),
        b.len() == sb.len(),
        a.len() == b.len(),
        forall|k: int| 0 <= k < a.len() ==> #[trigger] (a[k] * sa[k]) == b[k] * sb[k],
    ensures
        offset(a, sa) == offset(b, sb),
    decreases a.len(),
{
    if a.len() > 0 {
        assert(a[0] * sa[0] == b[0] * sb[0]);
        assert forall|k: int| 0 <= k < a.len() - 1 implies #[trigger] (a.drop_first()[k] * sa.drop_first()[k])
            == b.drop_first()[k] * sb.drop_first()[k] by {
            assert(a[k + 1] * sa[k + 1] == b[k + 1] * sb[k + 1]);
        }
        lemma_offset_termwise(a.drop_first(), sa.drop_first(), b.drop_first(), sb.drop_first());
    }
}

/// `from` can be stretched to `to`: aligned from the last axis, each axis
/// of `from` equals its counterpart or is 1, and `from` has no more axes.
pub open spec fn broadcast_compatible(from: Seq<usize>, to: Seq<usize>) -> bool {
    &&& from.len() <= to.len()
    &&& forall|k: int|
        0 <= k < from.len() ==> #[trigger] from[k] == to[k + to.len() - from.len()] || from[k] == 1
}

/// The multi-index of the source element that `idx` of the stretched shape reads.
pub open spec fn broadcast_index(from: Seq<usize>, to: Seq<usize>, idx: Seq<int>) -> Seq<int> {
    let d = to.len() - from.len();
    Seq::new(from.len(), |k: int| if from[k] == to[k + d] { idx[k + d] } else { 0 })
}

/// Strides that read `from` (with strides `s`) stretched to `to`.
pub open spec fn broadcast_strides(from: Seq<usize>, to: Seq<usize>, s: Seq<isize>) -> Seq<isize> {
    let d = to.len() - from.len();
    Seq::new(
        to.len(),
        |j: int|
            if j < d {
                0isize
            } else if from[j - d] == to[j] {
                s[j - d]
            } else {
                0isize
            },
    )
}

pub proof fn lemma_broadcast_offset(from: Seq<usize>, to: Seq<usize>, s: Seq<isize>, idx: Seq<int>)
    requires
        broadcast_compatible(from, to),
        s.len() == from.len(),
        valid_index(to, idx),
    ensures
        valid_index(from, broadcast_index(from, to, idx)),
        offset(idx, broadcast_strides(from, to, s)) == offset(broadcast_index(from, to, idx), s),
{
    let d = to.len() - from.len();
    let ns = broadcast_strides(from, to, s);
    let b = broadcast_index(from, to, idx);
    assert forall|k: int| 0 <= k < b.len() implies 0 <= #[trigger] b[k] < from[k] by {
        assert(from[k] == to[k + d] || from[k] == 1);
        assert(0 <= idx[k + d] < to[k + d]);
    }
    lemma_offset_split(idx, ns, d);
    assert forall|k: int| 0 <= k < d implies #[trigger] (idx.take(d)[k] * ns.take(d)[k]) == zeros(
        d as nat,
    )[k] * ns.take(d)[k] by {
        assert(ns.take(d)[k] == 0);
    }
    lemma_offset_termwise(idx.take(d), ns.take(d), zeros(d as nat), ns.take(d));
    lemma_offset_zeros(d as nat, ns.take(d));
    assert forall|k: int| 0 <= k < from.len() implies #[trigger] (idx.skip(d)[k] * ns.skip(d)[k]) == b[k]
        * s[k] by {
        if from[k] == to[k + d] {
            assert(idx.skip(d)[k] == idx[k + d]);
            assert(ns.skip(d)[k] == s[k]);
        } else {
            assert(ns.skip(d)[k] == 0);
        }
    }
    lemma_offset_termwise(idx.skip(d), ns.skip(d), b, s);
}

/// Offsets are linear: when every axis term of `a` is the sum of the terms
/// of `b` and `c`, so is the whole offset.
pub proof fn lemma_offset_linear(
    a: Seq<int>,
    sa: Seq<isize>,
    b: Seq<int>,
    sb: Seq<isize>,
    c: Seq<int>,
    sc: Seq<isize>,
)
    requires
        a.len() == sa.len(),
        b.len() == sb.len(),
        c.len() == sc.len(),
        a.len() == b.len(),
        a.len() == c.len(),
        forall|k: int| 0 <= k < a.len() ==> #[trigger] (a[k] * sa[k]) == b[k] * sb[k] + c[k] * sc[k],
    ensures
        offset(a, sa) == offset(b, sb) + offset(c, sc),
    decreases a.len(),
{
    if a.len() > 0 {
        assert(a[0] * sa[0] == b[0] * sb[0] + c[0] * sc[0]);
        assert forall|k: int| 0 <= k < a.len() - 1 implies #[trigger] (a.drop_first()[k] * sa.drop_first()[k])
            == b.drop_first()[k] * sb.drop_first()[k] + c.drop_first()[k] * sc.drop_first()[k] by {
            assert(a[k + 1] * sa[k + 1] == b[k + 1] * sb[k + 1] + c[k + 1] * sc[k + 1]);
        }
        lemma_offset_linear(a.drop_first(), sa.drop_first(), b.drop_first(), sb.drop_first(), c.drop_first(), sc.drop_first());
    }
}

/// A slice of one axis: start, optional end, and step. Negative start and
/// end count from the end of the axis; a negative step walks the selected
/// range backwards.
#[derive(Clone, Copy, Debug)]
pub struct Si(pub isize, pub Option<isize>, pub isize);

/// An index counted from the end when negative.
pub open spec fn abs_index(len: int, i: int) -> int {
    if i < 0 {
        len + i
    } else {
        i
    }
}

/// First position of the selected range of an axis of extent `m`.
pub open spec fn slice_start(m: int, si: Si) -> int {
    abs_index(m, si.0 as int)
}

/// End (exclusive) of the selected range; never before the start.
pub open spec fn slice_end(m: int, si: Si) -> int {
    let e = abs_index(
        m,
        match si.1 {
            Some(e) => e as int,
            None => m,
        },
    );
    if e < slice_start(m, si) {
        slice_start(m, si)
    } else {
        e
    }
}

/// The slice can be taken of an axis of extent `m`: its step is not zero and
/// its range lies within the axis.
pub open spec fn slice_ok(m: int, si: Si) -> bool {
    &&& si.2 != 0
    &&& 0 <= slice_start(m, si) <= m
    &&& slice_end(m, si) <= m
}

pub open spec fn abs_step(si: Si) -> int {
    if si.2 < 0 {
        -(si.2 as int)
    } else {
        si.2 as int
    }
}

/// Extent of the axis after slicing.
pub open spec fn slice_len(m: int, si: Si) -> int {
    let l = slice_end(m, si) - slice_start(m, si);
    (l + abs_step(si) - 1) / abs_step(si)
}

/// Position on the unsliced axis of position `j` of the sliced axis.
pub open spec fn slice_source(m: int, si: Si, j: int) -> int {
    if si.2 > 0 {
        slice_start(m, si) + j * si.2
    } else {
        slice_end(m, si) - 1 + j * si.2
    }
}

/// Each slice can be taken of its axis.
pub open spec fn slices_ok(dims: Seq<usize>, sl: Seq<Si>) -> bool {
    &&& sl.len() == dims.len()
    &&& forall|k: int| 0 <= k < dims.len() ==> slice_ok(dims[k] as int, #[trigger] sl[k])
}

/// The product of a stride and a step, or 0 when it does not fit in an
/// `isize` (which happens only on an axis whose step is never taken).
pub open spec fn scaled_stride(s: isize, step: isize) -> int {
    let p = s * step;
    if isize::MIN <= p <= isize::MAX {
        p
    } else {
        0
    }
}

/// Strides after slicing every axis.
pub open spec fn sliced_strides(strides: Seq<isize>, sl: Seq<Si>) -> Seq<int> {
    Seq::new(strides.len(), |k: int| scaled_stride(strides[k], sl[k].2))
}

/// Extents after slicing every axis.
pub open spec fn sliced_dims(dims: Seq<usize>, sl: Seq<Si>) -> Seq<usize> {
    Seq::new(dims.len(), |k: int| slice_len(dims[k] as int, sl[k]) as usize)
}

/// The multi-index in the unsliced array of the element at `idx` of the sliced one.
pub open spec fn sliced_source(dims: Seq<usize>, sl: Seq<Si>, idx: Seq<int>) -> Seq<int> {
    Seq::new(dims.len(), |k: int| slice_source(dims[k] as int, sl[k], idx[k]))
}

/// With step 1 the sliced extent is the length of the selected range.
pub proof fn lemma_slice_len_unit(m: int, si: Si)
    requires
        si.2 == 1,
        slice_start(m, si) <= slice_end(m, si),
    ensures
        slice_len(m, si) == slice_end(m, si) - slice_start(m, si),
{
    let l = slice_end(m, si) - slice_start(m, si);
    assert(abs_step(si) == 1);
    assert((l + 1 - 1) / 1 == l);
}

/// Slicing one axis selects positions inside the axis, one for each
/// position of the sliced axis, in order of the step.
pub proof fn lemma_slice_axis(m: int, si: Si, j: int)
    requires
        slice_ok(m, si),
        0 <= j < slice_len(m, si),
    ensures
        0 <= slice_source(m, si, j) < m,
        slice_len(m, si) <= m,
        slice_end(m, si) - slice_start(m, si) >= 1,
        si.2 > 0 ==> slice_source(m, si, 0) == slice_start(m, si),
        si.2 < 0 ==> slice_source(m, si, 0) == slice_end(m, si) - 1,
{
    let l = slice_end(m, si) - slice_start(m, si);
    let a = abs_step(si);
    let b = slice_start(m, si);
    assert(a >= 1);
    assert(0 <= l <= m);
    assert(j * a <= l - 1 && (l + a - 1) / a <= l && l >= 1) by (nonlinear_arith)
        requires
            a >= 1,
            0 <= j,
            j < (l + a - 1) / a,
            l >= 0,
    ;
    if si.2 > 0 {
        assert(j * si.2 == j * a);
    } else {
        assert(j * si.2 == -(j * a)) by (nonlinear_arith)
            requires
                si.2 == -a,
        ;
    }
}

/// Distinct positions of a sliced axis come from distinct positions.
pub proof fn lemma_slice_injective(m: int, si: Si, j1: int, j2: int)
    requires
        si.2 != 0,
        slice_source(m, si, j1) == slice_source(m, si, j2),
    ensures
        j1 == j2,
{
    let st = si.2 as int;
    assert(j1 * st == j2 * st);
    assert(j1 == j2) by (nonlinear_arith)
        requires
            j1 * st == j2 * st,
            st != 0,
    ;
}

/// The multi-index that is zero but for `v` at axis `k`.
pub open spec fn unit_index(n: nat, k: int, v: int) -> Seq<int> {
    zeros(n).update(k, v)
}

pub proof fn lemma_offset_unit(strides: Seq<isize>, k: int, v: int)
    requires
        0 <= k < strides.len(),
    ensures
        offset(unit_index(strides.len(), k, v), strides) == v * strides[k],
{
    let n = strides.len();
    let u = unit_index(n, k, v);
    lemma_offset_split(u, strides, k);
    assert(u.take(k) =~= zeros(k as nat));
    lemma_offset_zeros(k as nat, strides.take(k));
    let t = u.skip(k);
    assert(t.drop_first() =~= zeros((n - k - 1) as nat));
    lemma_offset_zeros((n - k - 1) as nat, strides.skip(k).drop_first());
    assert(t[0] == v);
}

/// Clearing one coordinate removes exactly its term from the offset.
pub proof fn lemma_offset_clear(a: Seq<int>, s: Seq<isize>, k: int)
    requires
        a.len() == s.len(),
        0 <= k < a.len(),
    ensures
        offset(a, s) == offset(a.update(k, 0), s) + a[k] * s[k],
{
    let u = unit_index(s.len(), k, a[k]);
    assert forall|q: int| 0 <= q < a.len() implies #[trigger] (a[q] * s[q]) == a.update(k, 0)[q] * s[q] + u[q]
        * s[q] by {
        if q == k {
            assert(u[q] == a[k]);
        } else {
            assert(u[q] == 0);
        }
    }
    lemma_offset_linear(a, s, a.update(k, 0), s, u, s);
    lemma_offset_unit(s, k, a[k]);
}

/// Exchanging two axes in both the index and the strides keeps the offset.
pub proof fn lemma_offset_swap(a: Seq<int>, s: Seq<isize>, i: int, j: int)
    requires
        a.len() == s.len(),
        0 <= i < a.len(),
        0 <= j < a.len(),
    ensures
        offset(a.update(i, a[j]).update(j, a[i]), s.update(i, s[j]).update(j, s[i])) == offset(a, s),
{
    let a2 = a.update(i, a[j]).update(j, a[i]);
    let s2 = s.update(i, s[j]).update(j, s[i]);
    if i != j {
        lemma_offset_clear(a, s, i);
        lemma_offset_clear(a.update(i, 0), s, j);
        lemma_offset_clear(a2, s2, i);
        lemma_offset_clear(a2.update(i, 0), s2, j);
        let z = a.update(i, 0).update(j, 0);
        let z2 = a2.update(i, 0).update(j, 0);
        assert forall|q: int| 0 <= q < a.len() implies #[trigger] (z2[q] * s2[q]) == z[q] * s[q] by {
            if q != i && q != j {
                assert(a2[q] == a[q]);
                assert(z2[q] == z[q]);
                assert(s2[q] == s[q]);
            } else {
                assert(z2[q] == 0);
                assert(z[q] == 0);
                let x = s2[q] as int;
                let y = s[q] as int;
                assert(0 * x == 0 * y) by (nonlinear_arith);
            }
        }
        lemma_offset_termwise(z2, s2, z, s);
    } else {
        assert(a2 =~= a);
        assert(s2 =~= s);
    }
}

/// Reversing the axes of both the index and the strides keeps the offset.
pub proof fn lemma_offset_reverse(a: Seq<int>, s: Seq<isize>)
    requires
        a.len() == s.len(),
    ensures
        offset(a.reverse(), s.reverse()) == offset(a, s),
    decreases a.len(),
{
    if a.len() > 0 {
        let n = a.len() as int;
        lemma_offset_reverse(a.drop_last(), s.drop_last());
        assert(a.reverse().drop_first() =~= a.drop_last().reverse());
        assert(s.reverse().drop_first() =~= s.drop_last().reverse());
        assert(a.reverse()[0] == a[n - 1]);
        assert(s.reverse()[0] == s[n - 1]);
        lemma_offset_split(a, s, n - 1);
        assert(a.take(n - 1) =~= a.drop_last());
        assert(s.take(n - 1) =~= s.drop_last());
        assert(a.skip(n - 1).drop_first() =~= Seq::<int>::empty());
        assert(a.skip(n - 1)[0] == a[n - 1]);
        assert(s.skip(n - 1)[0] == s[n - 1]);
        assert(offset(a.skip(n - 1).drop_first(), s.skip(n - 1).drop_first()) == 0);
        assert(offset(a.skip(n - 1), s.skip(n - 1)) == a[n - 1] * s[n - 1] + offset(
            a.skip(n - 1).drop_first(),
            s.skip(n - 1).drop_first(),
        ));
        assert(offset(a.reverse(), s.reverse()) == a.reverse()[0] * s.reverse()[0] + offset(
            a.reverse().drop_first(),
            s.reverse().drop_first(),
        ));
    }
}

/// Inserting a coordinate `v` at `axis` adds its term to the offset of the rest.
pub proof fn lemma_offset_insert(idx: Seq<int>, s: Seq<isize>, axis: int, v: int)
    requires
        idx.len() + 1 == s.len(),
        0 <= axis < s.len(),
    ensures
        offset(idx.insert(axis, v), s) == offset(idx, s.remove(axis)) + v * s[axis],
{
    let a = idx.insert(axis, v);
    lemma_offset_clear(a, s, axis);
    let z = a.update(axis, 0);
    lemma_offset_split(z, s, axis);
    lemma_offset_split(idx, s.remove(axis), axis);
    assert(z.take(axis) =~= idx.take(axis));
    assert(s.take(axis) =~= s.remove(axis).take(axis));
    let zt = z.skip(axis);
    let st = s.skip(axis);
    assert(zt.drop_first() =~= idx.skip(axis));
    assert(st.drop_first() =~= s.remove(axis).skip(axis));
    assert(zt[0] == 0);
    assert(zt.len() > 0 && st.len() > 0);
    assert(offset(zt, st) == zt[0] * st[0] + offset(zt.drop_first(), st.drop_first()));
    assert(zt[0] * st[0] == 0);
    assert(offset(zt, st) == offset(idx.skip(axis), s.remove(axis).skip(axis)));
    assert(offset(z, s) == offset(idx, s.remove(axis)));
    assert(a[axis] == v);
}

/// The sum of the strides.
pub open spec fn stride_sum(s: Seq<isize>) -> int
    decreases s.len(),
{
    if s.len() == 0 {
        0
    } else {
        s[0] + stride_sum(s.drop_first())
    }
}

/// Stride of the diagonal: the sum of the strides, or 0 when it does not fit
/// in an `isize` (which happens only when no step along it is taken).
pub open spec fn diag_stride(s: Seq<isize>) -> int {
    if isize::MIN <= stride_sum(s) <= isize::MAX {
        stride_sum(s)
    } else {
        0
    }
}

/// The multi-index with every coordinate equal to `i`.
pub open spec fn diag_index(n: nat, i: int) -> Seq<int> {
    Seq::new(n, |k: int| i)
}

/// The offset of `(i, i, ..., i)` is `i` times the sum of the strides.
pub proof fn lemma_offset_diag(s: Seq<isize>, i: int)
    ensures
        offset(diag_index(s.len(), i), s) == i * stride_sum(s),
    decreases s.len(),
{
    if s.len() > 0 {
        assert(diag_index(s.len(), i).drop_first() =~= diag_index((s.len() - 1) as nat, i));
        lemma_offset_diag(s.drop_first(), i);
        assert(i * s[0] + i * stride_sum(s.drop_first()) == i * (s[0] + stride_sum(s.drop_first())))
            by (nonlinear_arith);
    }
}

/// A shape with at least one element has every extent at least 1.
pub proof fn lemma_size_pos(dims: Seq<usize>, k: int)
    requires
        size(dims) > 0,
        0 <= k < dims.len(),
    ensures
        dims[k] >= 1,
    decreases dims.len(),
{
    let x = dims[0] as nat;
    let y = size(dims.drop_first());
    assert(x * y > 0 ==> x > 0 && y > 0) by (nonlinear_arith);
    if k > 0 {
        lemma_size_pos(dims.drop_first(), k - 1);
    }
}

/// The smallest extent; 1 when there is no axis.
pub open spec fn min_extent(dims: Seq<usize>) -> int
    decreases dims.len(),
{
    if dims.len() == 0 {
        1
    } else if dims.len() == 1 {
        dims[0] as int
    } else {
        let m = min_extent(dims.drop_last());
        if (dims.last() as int) < m {
            dims.last() as int
        } else {
            m
        }
    }
}

pub proof fn lemma_min_extent_push(dims: Seq<usize>, k: int)
    requires
        0 <= k < dims.len(),
    ensures
        min_extent(dims.take(k + 1)) == if k == 0 || (dims[k] as int) < min_extent(dims.take(k)) {
            dims[k] as int
        } else {
            min_extent(dims.take(k))
        },
{
    assert(dims.take(k + 1).drop_last() =~= dims.take(k));
}

/// The smallest extent is at most every extent, and at least 0.
pub proof fn lemma_min_extent_le(dims: Seq<usize>, q: int)
    requires
        0 <= q < dims.len(),
    ensures
        0 <= min_extent(dims) <= dims[q],
    decreases dims.len(),
{
    if dims.len() > 1 {
        if q < dims.len() - 1 {
            lemma_min_extent_le(dims.drop_last(), q);
        } else {
            lemma_min_extent_le(dims.drop_last(), 0);
        }
    }
}

pub proof fn lemma_stride_sum_push(s: Seq<isize>, k: int)
    requires
        0 <= k < s.len(),
    ensures
        stride_sum(s.take(k + 1)) == stride_sum(s.take(k)) + s[k],
    decreases k,
{
    if k > 0 {
        lemma_stride_sum_push(s.drop_first(), k - 1);
        assert(s.take(k + 1).drop_first() =~= s.drop_first().take(k));
        assert(s.take(k).drop_first() =~= s.drop_first().take(k - 1));
    } else {
        assert(s.take(1).drop_first() =~= Seq::<isize>::empty());
        assert(s.take(0) =~= Seq::<isize>::empty());
    }
}

/// Removing an axis never makes a shape stop fitting.
pub proof fn lemma_fits_remove(dims: Seq<usize>, k: int)
    requires
        shape_fits(dims),
        0 <= k < dims.len(),
    ensures
        shape_fits(dims.remove(k)),
{
    let a = dims.take(k);
    let x = seq![dims[k]];
    let b = dims.skip(k + 1);
    assert(dims =~= a + (x + b));
    assert(dims.remove(k) =~= a + b);
    lemma_size_nz_append(a, x + b);
    lemma_size_nz_append(x, b);
    lemma_size_nz_append(a, b);
    lemma_size_nz_append(b, seq![]);
    let p = size_nz(a);
    let h = size_nz(x);
    let q = size_nz(b);
    assert(p * q <= p * (h * q)) by (nonlinear_arith)
        requires
            p >= 1,
            h >= 1,
            q >= 1,
    ;
}

/// Exchanging two extents keeps the shape fitting.
pub proof fn lemma_fits_perm_swap(dims: Seq<usize>, i: int, j: int)
    requires
        shape_fits(dims),
        0 <= i < dims.len(),
        0 <= j < dims.len(),
    ensures
        shape_fits(dims.update(i, dims[j]).update(j, dims[i])),
{
    let d2 = dims.update(i, dims[j]).update(j, dims[i]);
    if i != j {
        let (lo, hi) = if i < j { (i, j) } else { (j, i) };
        let a = dims.take(lo);
        let m = dims.subrange(lo + 1, hi);
        let b = dims.skip(hi + 1);
        let x = seq![dims[lo]];
        let y = seq![dims[hi]];
        assert(dims =~= a + (x + (m + (y + b))));
        assert(d2 =~= a + (y + (m + (x + b))));
        lemma_size_nz_append(a, x + (m + (y + b)));
        lemma_size_nz_append(x, m + (y + b));
        lemma_size_nz_append(m, y + b);
        lemma_size_nz_append(y, b);
        lemma_size_nz_append(a, y + (m + (x + b)));
        lemma_size_nz_append(y, m + (x + b));
        lemma_size_nz_append(m, x + b);
        lemma_size_nz_append(x, b);
        let pa = size_nz(a);
        let px = size_nz(x);
        let pm = size_nz(m);
        let py = size_nz(y);
        let pb = size_nz(b);
        assert(pa * (px * (pm * (py * pb))) == pa * (py * (pm * (px * pb)))) by (nonlinear_arith);
    } else {
        assert(d2 =~= dims);
    }
}

/// Exchanging two extents keeps the element count.
pub proof fn lemma_size_swap(dims: Seq<usize>, i: int, j: int)
    requires
        0 <= i < dims.len(),
        0 <= j < dims.len(),
    ensures
        size(dims.update(i, dims[j]).update(j, dims[i])) == size(dims),
{
    let d2 = dims.update(i, dims[j]).update(j, dims[i]);
    if i != j {
        let (lo, hi) = if i < j { (i, j) } else { (j, i) };
        let a = dims.take(lo);
        let m = dims.subrange(lo + 1, hi);
        let b = dims.skip(hi + 1);
        let x = seq![dims[lo]];
        let y = seq![dims[hi]];
        assert(dims =~= a + (x + (m + (y + b))));
        assert(d2 =~= a + (y + (m + (x + b))));
        lemma_size_append(a, x + (m + (y + b)));
        lemma_size_append(x, m + (y + b));
        lemma_size_append(m, y + b);
        lemma_size_append(y, b);
        lemma_size_append(a, y + (m + (x + b)));
        lemma_size_append(y, m + (x + b));
        lemma_size_append(m, x + b);
        lemma_size_append(x, b);
        let pa = size(a);
        let px = size(x);
        let pm = size(m);
        let py = size(y);
        let pb = size(b);
        assert(pa * (px * (pm * (py * pb))) == pa * (py * (pm * (px * pb)))) by (nonlinear_arith);
    } else {
        assert(d2 =~= dims);
    }
}

/// Reversing the extents keeps the shape fitting.
pub proof fn lemma_fits_reverse(dims: Seq<usize>)
    requires
        shape_fits(dims),
    ensures
        shape_fits(dims.reverse()),
{
    lemma_size_nz_reverse(dims);
}

proof fn lemma_size_nz_reverse(dims: Seq<usize>)
    ensures
        size_nz(dims.reverse()) == size_nz(dims),
    decreases dims.len(),
{
    if dims.len() > 0 {
        let df = dims.drop_first();
        lemma_size_nz_reverse(df);
        assert(dims.reverse() =~= df.reverse() + seq![dims[0]]);
        lemma_size_nz_append(df.reverse(), seq![dims[0]]);
        lemma_size_nz_append(seq![dims[0]], df);
        assert(dims =~= seq![dims[0]] + df);
        let p = size_nz(df);
        let h = size_nz(seq![dims[0]]);
        assert(p * h == h * p) by (nonlinear_arith);
    }
}

pub proof fn lemma_size_append(a: Seq<usize>, b: Seq<usize>)
    ensures
        size(a + b) == size(a) * size(b),
    decreases a.len(),
{
    if a.len() == 0 {
        assert(a + b =~= b);
        assert(size(a) == 1);
    } else {
        assert((a + b).drop_first() =~= a.drop_first() + b);
        assert((a + b)[0] == a[0]);
        lemma_size_append(a.drop_first(), b);
        assert(size(a + b) == a[0] as nat * (size(a.drop_first()) * size(b)));
        assert(a[0] as nat * (size(a.drop_first()) * size(b)) == (a[0] as nat * size(a.drop_first()))
            * size(b)) by (nonlinear_arith);
        assert(size(a) == a[0] as nat * size(a.drop_first()));
    }
}

pub proof fn lemma_size_nz_append(a: Seq<usize>, b: Seq<usize>)
    ensures
        size_nz(a + b) == size_nz(a) * size_nz(b),
        size_nz(a) >= 1,
    decreases a.len(),
{
    if a.len() == 0 {
        assert(a + b =~= b);
        assert(size_nz(a) == 1);
    } else {
        assert((a + b).drop_first() =~= a.drop_first() + b);
        assert((a + b)[0] == a[0]);
        lemma_size_nz_append(a.drop_first(), b);
        let h: nat = if a[0] == 0 { 1 } else { a[0] as nat };
        assert(h * (size_nz(a.drop_first()) * size_nz(b)) == (h * size_nz(a.drop_first())) * size_nz(b))
            by (nonlinear_arith);
        assert(size_nz(a) == h * size_nz(a.drop_first()));
        assert(h * size_nz(a.drop_first()) >= 1) by (nonlinear_arith)
            requires
                h >= 1,
                size_nz(a.drop_first()) >= 1,
        ;
    }
}

pub proof fn lemma_size_le_nz(a: Seq<usize>)
    ensures
        size(a) <= size_nz(a),
    decreases a.len(),
{
    if a.len() > 0 {
        lemma_size_le_nz(a.drop_first());
        let h: nat = if a[0] == 0 { 1 } else { a[0] as nat };
        let x = size(a.drop_first());
        let y = size_nz(a.drop_first());
        assert(a[0] as nat * x <= h * y) by (nonlinear_arith)
            requires
                x <= y,
                a[0] as nat <= h,
        ;
    }
}

/// Shrinking extents never makes a shape stop fitting.
pub proof fn lemma_fits_shrink(small: Seq<usize>, big: Seq<usize>)
    requires
        small.len() == big.len(),
        shape_fits(big),
        forall|k: int| 0 <= k < small.len() ==> #[trigger] small[k] <= big[k],
    ensures
        shape_fits(small),
{
    lemma_size_nz_le(small, big);
}

proof fn lemma_size_nz_le(small: Seq<usize>, big: Seq<usize>)
    requires
        small.len() == big.len(),
        forall|k: int| 0 <= k < small.len() ==> #[trigger] small[k] <= big[k],
    ensures
        size_nz(small) <= size_nz(big),
    decreases small.len(),
{
    if small.len() > 0 {
        assert forall|k: int| 0 <= k < small.len() - 1 implies #[trigger] small.drop_first()[k] <= big.drop_first()[k] by {
            assert(small[k + 1] <= big[k + 1]);
        }
        lemma_size_nz_le(small.drop_first(), big.drop_first());
        lemma_size_nz_append(seq![small[0]], small.drop_first());
        lemma_size_nz_append(seq![big[0]], big.drop_first());
        let hs: nat = if small[0] == 0 { 1 } else { small[0] as nat };
        let hb: nat = if big[0] == 0 { 1 } else { big[0] as nat };
        assert(small[0] <= big[0]);
        assert(hs <= hb);
        let x = size_nz(small.drop_first());
        let y = size_nz(big.drop_first());
        lemma_size_nz_append(small.drop_first(), seq![]);
        assert(hs * x <= hb * y) by (nonlinear_arith)
            requires
                hs <= hb,
                x <= y,
        ;
    }
}

/// Every run of consecutive extents has an element count that fits.
pub proof fn lemma_run_fits(dims: Seq<usize>, i: int, j: int)
    requires
        shape_fits(dims),
        0 <= i <= j <= dims.len(),
    ensures
        size(dims.subrange(i, j)) <= isize::MAX,
{
    let a = dims.subrange(0, i);
    let b = dims.subrange(i, j);
    let c = dims.subrange(j, dims.len() as int);
    assert(dims =~= a + (b + c));
    lemma_size_nz_append(a, b + c);
    lemma_size_nz_append(b, c);
    lemma_size_nz_append(c, seq![]);
    lemma_size_le_nz(b);
    let x = size_nz(a);
    let y = size_nz(b);
    let z = size_nz(c);
    assert(y <= x * (y * z)) by (nonlinear_arith)
        requires
            x >= 1,
            z >= 1,
    ;
}

pub proof fn lemma_size_push(a: Seq<usize>, x: usize)
    ensures
        size(a.push(x)) == size(a) * x,
{
    lemma_size_append(a, seq![x]);
    assert(a + seq![x] =~= a.push(x));
    assert(seq![x].drop_first() =~= Seq::<usize>::empty());
    assert(size(Seq::<usize>::empty()) == 1);
    assert(size(seq![x]) == x as nat * size(seq![x].drop_first()));
}

/// Every entry of the default strides is the product of the later extents.
pub proof fn lemma_default_strides_entry(dims: Seq<usize>, k: int)
    requires
        0 <= k < dims.len(),
    ensures
        default_strides(dims).len() == dims.len(),
        default_strides(dims)[k] == size(dims.subrange(k + 1, dims.len() as int)) as int,
    decreases dims.len(),
{
    lemma_default_strides_len(dims);
    if k == 0 {
        assert(dims.subrange(1, dims.len() as int) =~= dims.drop_first());
    } else {
        lemma_default_strides_entry(dims.drop_first(), k - 1);
        assert(dims.drop_first().subrange(k, dims.len() - 1) =~= dims.subrange(k + 1, dims.len() as int));
    }
}

pub proof fn lemma_default_strides_len(dims: Seq<usize>)
    ensures
        default_strides(dims).len() == dims.len(),
    decreases dims.len(),
{
    if dims.len() > 0 {
        lemma_default_strides_len(dims.drop_first());
    }
}

pub proof fn lemma_size_split(dims: Seq<usize>, k: int)
    requires
        0 <= k < dims.len(),
    ensures
        size(dims.subrange(k, dims.len() as int)) == dims[k] as nat * size(
            dims.subrange(k + 1, dims.len() as int),
        ),
{
    assert(dims.subrange(k, dims.len() as int).drop_first() =~= dims.subrange(k + 1, dims.len() as int));
}

/// A valid index has a row-major position in `[0, size)`.
pub proof fn lemma_ravel_bounds(dims: Seq<usize>, idx: Seq<int>)
    requires
        valid_index(dims, idx),
    ensures
        0 <= ravel(dims, idx) < size(dims),
    decreases dims.len(),
{
    if dims.len() > 0 {
        let df = dims.drop_first();
        let idf = idx.drop_first();
        assert(valid_index(df, idf)) by {
            assert forall|k: int| 0 <= k < idf.len() implies 0 <= #[trigger] idf[k] < df[k] by {
                assert(idf[k] == idx[k + 1]);
            }
        }
        lemma_ravel_bounds(df, idf);
        let s = size(df) as int;
        let r = ravel(df, idf);
        let i0 = idx[0];
        let d0 = dims[0] as int;
        assert(0 <= i0 < d0);
        assert(0 <= i0 * s + r < d0 * s) by (nonlinear_arith)
            requires
                0 <= i0 < d0,
                0 <= r < s,
        ;
    }
}

/// Row-major positions and multi-indices correspond one to one.
pub proof fn lemma_unravel(dims: Seq<usize>, i: int)
    requires
        0 <= i < size(dims),
    ensures
        valid_index(dims, unravel(dims, i)),
        ravel(dims, unravel(dims, i)) == i,
    decreases dims.len(),
{
    if dims.len() > 0 {
        let df = dims.drop_first();
        let s = size(df) as int;
        let d0 = dims[0] as int;
        assert(size(dims) == d0 * s);
        if s == 0 {
            assert(d0 * s == 0) by (nonlinear_arith)
                requires
                    s == 0,
            ;
        } else {
            let q = i / s;
            let r = i % s;
            assert(0 <= q < d0 && 0 <= r < s && q * s + r == i) by (nonlinear_arith)
                requires
                    0 <= i < d0 * s,
                    s > 0,
                    q == i / s,
                    r == i % s,
            ;
            lemma_unravel(df, r);
            let u = unravel(dims, i);
            assert(u.drop_first() =~= unravel(df, r));
            assert forall|k: int| 0 <= k < u.len() implies 0 <= #[trigger] u[k] < dims[k] by {
                if k > 0 {
                    assert(u[k] == unravel(df, r)[k - 1]);
                }
            }
        }
    }
}

/// Two valid indices with the same row-major position are equal.
pub proof fn lemma_ravel_injective(dims: Seq<usize>, a: Seq<int>, b: Seq<int>)
    requires
        valid_index(dims, a),
        valid_index(dims, b),
        ravel(dims, a) == ravel(dims, b),
    ensures
        a == b,
    decreases dims.len(),
{
    if dims.len() > 0 {
        let df = dims.drop_first();
        assert(valid_index(df, a.drop_first())) by {
            assert forall|k: int| 0 <= k < a.drop_first().len() implies 0 <= #[trigger] a.drop_first()[k]
                < df[k] by {
                assert(a.drop_first()[k] == a[k + 1]);
            }
        }
        assert(valid_index(df, b.drop_first())) by {
            assert forall|k: int| 0 <= k < b.drop_first().len() implies 0 <= #[trigger] b.drop_first()[k]
                < df[k] by {
                assert(b.drop_first()[k] == b[k + 1]);
            }
        }
        lemma_ravel_bounds(df, a.drop_first());
        lemma_ravel_bounds(df, b.drop_first());
        let s = size(df) as int;
        let ra = ravel(df, a.drop_first());
        let rb = ravel(df, b.drop_first());
        let a0 = a[0];
        let b0 = b[0];
        assert(a0 == b0 && ra == rb) by (nonlinear_arith)
            requires
                a0 * s + ra == b0 * s + rb,
                0 <= ra < s,
                0 <= rb < s,
        ;
        lemma_ravel_injective(df, a.drop_first(), b.drop_first());
        assert(a =~= seq![a0] + a.drop_first());
        assert(b =~= seq![b0] + b.drop_first());
    }
}

/// Strides that agree with the row-major ones on every axis whose extent is
/// not 1 (the step of an axis of extent 1 is never taken).
pub open spec fn standard_layout(dims: Seq<usize>, strides: Seq<isize>) -> bool {
    &&& strides.len() == dims.len()
    &&& forall|k: int|
        0 <= k < dims.len() && dims[k] != 1 ==> strides[k] as int == #[trigger] default_strides(dims)[k]
}

/// The offset of a valid index under a standard layout is its row-major position.
pub proof fn lemma_default_offset_is_ravel(dims: Seq<usize>, idx: Seq<int>, strides: Seq<isize>)
    requires
        valid_index(dims, idx),
        standard_layout(dims, strides),
    ensures
        offset(idx, strides) == ravel(dims, idx),
    decreases dims.len(),
{
    lemma_default_strides_len(dims);
    if dims.len() > 0 {
        let df = dims.drop_first();
        lemma_default_strides_len(df);
        assert(default_strides(dims)[0] == size(df) as int);
        assert(standard_layout(df, strides.drop_first())) by {
            assert forall|k: int| 0 <= k < df.len() && df[k] != 1 implies strides.drop_first()[k] as int
                == #[trigger] default_strides(df)[k] by {
                assert(strides.drop_first()[k] == strides[k + 1]);
                assert(default_strides(dims)[k + 1] == default_strides(df)[k]);
                assert(df[k] == dims[k + 1]);
            }
        }
        assert(valid_index(df, idx.drop_first())) by {
            assert forall|k: int| 0 <= k < idx.drop_first().len() implies 0 <= #[trigger] idx.drop_first()[k]
                < df[k] by {
                assert(idx.drop_first()[k] == idx[k + 1]);
            }
        }
        lemma_default_offset_is_ravel(df, idx.drop_first(), strides.drop_first());
        if dims[0] == 1 {
            assert(idx[0] == 0);
        }
    }
}

/// The row-major strides are a standard layout.
pub proof fn lemma_default_is_standard(dims: Seq<usize>, strides: Seq<isize>)
    requires
        strides_are(strides, default_strides(dims)),
    ensures
        standard_layout(dims, strides),
{
    lemma_default_strides_len(dims);
}

/// The multi-index at row-major position `i`.
pub fn unravel_index(dims: &Vec<usize>, ds: &Vec<isize>, i: usize) -> (r: Vec<usize>)
    requires
        shape_fits(dims@),
        strides_are(ds@, default_strides(dims@)),
        i < size(dims@),
    ensures
        ix(r@) == unravel(dims@, i as int),
        valid_index(dims@, ix(r@)),
{
    let n = dims.len();
    let mut r: Vec<usize> = Vec::new();
    let mut rem: usize = i;
    proof {
        lemma_default_strides_len(dims@);
        assert(dims@.skip(0) =~= dims@);
        assert(ix(r@) + unravel(dims@.skip(0), rem as int) =~= unravel(dims@, i as int));
    }
    while r.len() < n
        invariant
            r.len() <= n,
            n == dims.len(),
            ds.len() == n,
            strides_are(ds@, default_strides(dims@)),
            rem < size(dims@.skip(r.len() as int)),
            ix(r@) + unravel(dims@.skip(r.len() as int), rem as int) == unravel(dims@, i as int),
        decreases n - r.len(),
    {
        let k = r.len();
        let ghost rest = dims@.skip(k as int);
        proof {
            lemma_default_strides_entry(dims@, k as int);
            assert(rest.drop_first() =~= dims@.skip(k + 1));
            assert(dims@.subrange(k + 1, n as int) =~= dims@.skip(k + 1));
            assert(rest[0] == dims@[k as int]);
        }
        let sz = ds[k] as usize;
        proof {
            let d = dims@[k as int] as int;
            let s = sz as int;
            assert(size(rest) == d * s);
            assert(s > 0 && rem as int / s < d && rem as int % s < s) by (nonlinear_arith)
                requires
                    0 <= rem < d * s,
                    s >= 0,
            ;
        }
        let q = rem / sz;
        let ghost old_r = r@;
        let ghost old_rem = rem as int;
        r.push(q);
        rem = rem % sz;
        proof {
            assert(unravel(rest, old_rem) == seq![q as int] + unravel(dims@.skip(k + 1), rem as int));
            assert(ix(r@) =~= ix(old_r).push(q as int));
            assert(ix(r@) + unravel(dims@.skip(r.len() as int), rem as int) =~= ix(old_r) + (seq![q as int]
                + unravel(dims@.skip(k + 1), rem as int)));
        }
    }
    proof {
        assert(dims@.skip(n as int) =~= Seq::<usize>::empty());
        assert(ix(r@) + unravel(dims@.skip(n as int), rem as int) =~= ix(r@));
        lemma_unravel(dims@, i as int);
    }
    r
}

/// Under row-major strides the offsets of the multi-indices, taken in
/// row-major order, are 0, 1, 2, ...: each step of the innermost axis
/// advances the offset by one, and the largest offset is the element count
/// minus one.
pub proof fn lemma_row_major_offsets(dims: Seq<usize>, strides: Seq<isize>)
    requires
        strides_are(strides, default_strides(dims)),
    ensures
        forall|i: int| 0 <= i < size(dims) ==> #[trigger] offset(unravel(dims, i), strides) == i,
        forall|idx: Seq<int>| valid_index(dims, idx) ==> 0 <= #[trigger] offset(idx, strides) < size(dims),
{
    lemma_default_is_standard(dims, strides);
    assert forall|i: int| 0 <= i < size(dims) implies #[trigger] offset(unravel(dims, i), strides) == i by {
        lemma_unravel(dims, i);
        lemma_default_offset_is_ravel(dims, unravel(dims, i), strides);
    }
    assert forall|idx: Seq<int>| valid_index(dims, idx) implies 0 <= #[trigger] offset(idx, strides) < size(dims) by {
        lemma_default_offset_is_ravel(dims, idx, strides);
        lemma_ravel_bounds(dims, idx);
    }
}

/// Appending an axis multiplies the row-major position by its extent.
pub proof fn lemma_ravel_push(p: Seq<usize>, idx: Seq<int>, l: usize, j: int)
    requires
        idx.len() == p.len(),
    ensures
        ravel(p.push(l), idx.push(j)) == ravel(p, idx) * l + j,
    decreases p.len(),
{
    if p.len() == 0 {
        assert(p.push(l).drop_first() =~= Seq::<usize>::empty());
        assert(idx.push(j).drop_first() =~= Seq::<int>::empty());
        assert(size(p.push(l).drop_first()) == 1);
        assert(idx.push(j)[0] == j);
        assert(ravel(p.push(l), idx.push(j)) == j * 1 + ravel(p.push(l).drop_first(), idx.push(j).drop_first()));
        assert(ravel(p, idx) == 0);
        let li = l as int;
        assert(j * 1 == j && 0 * li == 0) by (nonlinear_arith);
    } else {
        let pdf = p.drop_first();
        let idf = idx.drop_first();
        assert(p.push(l).drop_first() =~= pdf.push(l));
        assert(idx.push(j).drop_first() =~= idf.push(j));
        lemma_ravel_push(pdf, idf, l, j);
        lemma_size_push(pdf, l);
        let a = idx[0];
        assert(idx.push(j)[0] == a);
        assert(p.push(l)[0] == p[0]);
        let sz = size(pdf) as int;
        let r = ravel(pdf, idf);
        let li = l as int;
        assert(a * (sz * li) + (r * li + j) == (a * sz + r) * li + j) by (nonlinear_arith);
    }
}

/// Moving the last coordinate moves the row-major position by as much.
pub proof fn lemma_ravel_last(dims: Seq<usize>, idx: Seq<int>, v: int)
    requires
        dims.len() > 0,
        idx.len() == dims.len(),
    ensures
        ravel(dims, idx.update(dims.len() - 1, v)) == ravel(dims, idx) + v - idx[dims.len() - 1],
    decreases dims.len(),
{
    let n = dims.len();
    let u = idx.update(n - 1, v);
    let df = dims.drop_first();
    if n == 1 {
        assert(size(df) == 1);
        assert(ravel(df, u.drop_first()) == 0);
        assert(ravel(df, idx.drop_first()) == 0);
        let x = u[0];
        let y = idx[0];
        assert(x * 1 == x && y * 1 == y);
    } else {
        assert(u.drop_first() =~= idx.drop_first().update(n - 2, v));
        lemma_ravel_last(df, idx.drop_first(), v);
        assert(u[0] == idx[0]);
    }
}

/// Moving one coordinate moves the offset by that many strides.
pub proof fn lemma_offset_move(idx: Seq<int>, s: Seq<isize>, k: int, v: int)
    requires
        idx.len() == s.len(),
        0 <= k < idx.len(),
    ensures
        offset(idx.update(k, v), s) == offset(idx, s) + (v - idx[k]) * s[k],
{
    lemma_offset_clear(idx, s, k);
    lemma_offset_clear(idx.update(k, v), s, k);
    assert(idx.update(k, v).update(k, 0) =~= idx.update(k, 0));
    assert(v * s[k] - idx[k] * s[k] == (v - idx[k]) * s[k]) by (nonlinear_arith);
}

/// Strides that agree with the column-major ones on every axis whose
/// extent is not 1, for at least two axes.
pub open spec fn fortran_layout(dims: Seq<usize>, strides: Seq<isize>) -> bool {
    &&& dims.len() > 1
    &&& strides.len() == dims.len()
    &&& forall|k: int|
        0 <= k < dims.len() && dims[k] != 1 ==> strides[k] as int == #[trigger] fortran_strides(dims)[k]
}

pub proof fn lemma_size_reverse(dims: Seq<usize>)
    ensures
        size(dims.reverse()) == size(dims),
    decreases dims.len(),
{
    if dims.len() > 0 {
        let df = dims.drop_first();
        lemma_size_reverse(df);
        assert(dims.reverse() =~= df.reverse() + seq![dims[0]]);
        lemma_size_append(df.reverse(), seq![dims[0]]);
        assert(seq![dims[0]].drop_first() =~= Seq::<usize>::empty());
        assert(size(seq![dims[0]]) == dims[0] as nat * size(seq![dims[0]].drop_first()));
        let p = size(df);
        let h = dims[0] as nat;
        assert(p * (h * 1) == h * p) by (nonlinear_arith);
    }
}

/// Valid multi-indices stay valid when both they and the extents are reversed.
pub proof fn lemma_valid_reverse(dims: Seq<usize>, idx: Seq<int>)
    requires
        valid_index(dims, idx),
    ensures
        valid_index(dims.reverse(), idx.reverse()),
{
    let n = dims.len() as int;
    assert forall|k: int| 0 <= k < n implies 0 <= #[trigger] idx.reverse()[k] < dims.reverse()[k] by {
        assert(idx.reverse()[k] == idx[n - 1 - k]);
        assert(dims.reverse()[k] == dims[n - 1 - k]);
    }
}

/// A column-major layout is the row-major layout of the reversed axes.
pub proof fn lemma_fortran_reversed(dims: Seq<usize>, strides: Seq<isize>)
    requires
        fortran_layout(dims, strides),
    ensures
        standard_layout(dims.reverse(), strides.reverse()),
{
    let n = dims.len() as int;
    let r = dims.reverse();
    lemma_default_strides_len(r);
    assert forall|m: int| 0 <= m < n && r[m] != 1 implies strides.reverse()[m] as int == #[trigger] default_strides(r)[m] by {
        lemma_default_strides_entry(r, m);
        assert(r.subrange(m + 1, n) =~= dims.subrange(0, n - 1 - m).reverse());
        lemma_size_reverse(dims.subrange(0, n - 1 - m));
        assert(r[m] == dims[n - 1 - m]);
        assert(strides.reverse()[m] == strides[n - 1 - m]);
        assert(fortran_strides(dims)[n - 1 - m] == size(dims.subrange(0, n - 1 - m)) as int);
        assert(strides[n - 1 - m] as int == fortran_strides(dims)[n - 1 - m]);
    }
}

/// Column-major strides have a column-major layout.
pub proof fn lemma_fortran_strides_layout(dims: Seq<usize>, strides: Seq<isize>)
    requires
        dims.len() > 1,
        strides_are(strides, fortran_strides(dims)),
    ensures
        fortran_layout(dims, strides),
{
}

/// Index of the smallest stride among `s[q..]` and `s[m]`, the first one on ties.
pub open spec fn argmin_from(s: Seq<isize>, q: int, m: int) -> int
    decreases s.len() - q,
{
    if q >= s.len() {
        m
    } else {
        argmin_from(s, q + 1, if s[q] < s[m] { q } else { m })
    }
}

/// `v` with entries `k` and `m` exchanged.
pub open spec fn swap_at<T>(v: Seq<T>, k: int, m: int) -> Seq<T> {
    v.update(k, v[m]).update(m, v[k])
}

/// Extents and strides with the axes from `k` on put in order of stride,
/// smallest first, by repeatedly moving the smallest remaining one forward.
pub open spec fn order_by_stride(d: Seq<usize>, s: Seq<isize>, k: int) -> (Seq<usize>, Seq<isize>) {
    order_steps(d, s, k, s.len() as int)
}

/// The ordering of `order_by_stride` from axis `k` on, for `n` axes.
pub open spec fn order_steps(d: Seq<usize>, s: Seq<isize>, k: int, n: int) -> (Seq<usize>, Seq<isize>)
    decreases n - k,
{
    if k < 0 || k >= n || d.len() != n || s.len() != n {
        (d, s)
    } else {
        let m = argmin_from(s, k + 1, k);
        order_steps(swap_at(d, k, m), swap_at(s, k, m), k + 1, n)
    }
}

/// The elements fill a contiguous block: the layout is standard, or, with
/// the axes ordered by stride, each stride is the product of the extents
/// before it (axes of extent 1 excepted), for at least two axes.
pub open spec fn contiguous_layout(d: Seq<usize>, s: Seq<isize>) -> bool {
    ||| standard_layout(d, s)
    ||| (d.len() > 1 && fortran_layout(order_by_stride(d, s, 0).0, order_by_stride(d, s, 0).1))
}

/// `fwd` and `bwd` map the valid multi-indices of the two layouts onto each
/// other, one to one, keeping offsets.
pub open spec fn layouts_match(
    d1: Seq<usize>,
    s1: Seq<isize>,
    d2: Seq<usize>,
    s2: Seq<isize>,
    fwd: spec_fn(Seq<int>) -> Seq<int>,
    bwd: spec_fn(Seq<int>) -> Seq<int>,
) -> bool {
    &&& forall|i: Seq<int>|
        #[trigger] valid_index(d1, i) ==> valid_index(d2, fwd(i)) && offset(fwd(i), s2) == offset(i, s1) && bwd(fwd(i)) == i
    &&& forall|j: Seq<int>| #[trigger] valid_index(d2, j) ==> valid_index(d1, bwd(j)) && fwd(bwd(j)) == j
}

proof fn lemma_swap_index_valid(d: Seq<usize>, j: Seq<int>, k: int, m: int)
    requires
        valid_index(d, j),
        0 <= k < d.len(),
        0 <= m < d.len(),
    ensures
        valid_index(swap_at(d, k, m), swap_at(j, k, m)),
{
    let j1 = swap_at(j, k, m);
    let d1 = swap_at(d, k, m);
    assert forall|t: int| 0 <= t < j1.len() implies 0 <= #[trigger] j1[t] < d1[t] by {
        if t == m {
            assert(j1[t] == j[k]);
        } else if t == k {
            assert(j1[t] == j[m]);
        } else {
            assert(j1[t] == j[t]);
        }
    }
}

/// Ordering the axes by stride keeps a one-to-one match of indices and
/// offsets, the element count and the fitting of the shape.
pub proof fn lemma_order_match(
    d1: Seq<usize>,
    s1: Seq<isize>,
    d: Seq<usize>,
    s: Seq<isize>,
    k: int,
    fwd: spec_fn(Seq<int>) -> Seq<int>,
    bwd: spec_fn(Seq<int>) -> Seq<int>,
) -> (r: (spec_fn(Seq<int>) -> Seq<int>, spec_fn(Seq<int>) -> Seq<int>))
    requires
        layouts_match(d1, s1, d, s, fwd, bwd),
        d.len() == s.len(),
        0 <= k,
        shape_fits(d),
    ensures
        layouts_match(d1, s1, order_by_stride(d, s, k).0, order_by_stride(d, s, k).1, r.0, r.1),
        order_by_stride(d, s, k).0.len() == d.len(),
        order_by_stride(d, s, k).1.len() == d.len(),
        shape_fits(order_by_stride(d, s, k).0),
        size(order_by_stride(d, s, k).0) == size(d),
    decreases s.len() - k,
{
    if k >= s.len() {
        (fwd, bwd)
    } else {
        let m = argmin_from(s, k + 1, k);
        lemma_argmin_range(s, k + 1, k);
        let d2 = swap_at(d, k, m);
        let s2 = swap_at(s, k, m);
        let fwd2 = |i: Seq<int>| swap_at(fwd(i), k, m);
        let bwd2 = |j: Seq<int>| bwd(swap_at(j, k, m));
        assert forall|i: Seq<int>| #[trigger] valid_index(d1, i) implies valid_index(d2, fwd2(i)) && offset(fwd2(i), s2)
            == offset(i, s1) && bwd2(fwd2(i)) == i by {
            lemma_swap_index_valid(d, fwd(i), k, m);
            lemma_offset_swap(fwd(i), s, k, m);
            assert(swap_at(swap_at(fwd(i), k, m), k, m) =~= fwd(i));
        }
        assert forall|j: Seq<int>| #[trigger] valid_index(d2, j) implies valid_index(d1, bwd2(j)) && fwd2(bwd2(j)) == j by {
            lemma_swap_index_valid(d2, j, k, m);
            assert(swap_at(d2, k, m) =~= d);
            assert(swap_at(swap_at(j, k, m), k, m) =~= j);
        }
        lemma_fits_perm_swap(d, k, m);
        lemma_size_swap(d, k, m);
        lemma_order_match(d1, s1, d2, s2, k + 1, fwd2, bwd2)
    }
}

proof fn lemma_argmin_range(s: Seq<isize>, q: int, m: int)
    requires
        0 <= m < s.len(),
        q >= 0,
    ensures
        0 <= argmin_from(s, q, m) < s.len(),
        argmin_from(s, q, m) == m || q <= argmin_from(s, q, m),
    decreases s.len() - q,
{
    if q < s.len() {
        lemma_argmin_range(s, q + 1, if s[q] < s[m] { q } else { m });
    }
}

/// Some valid multi-index has offset `p`.
pub open spec fn offset_reached(d: Seq<usize>, s: Seq<isize>, p: int) -> bool {
    exists|i: Seq<int>| #[trigger] valid_index(d, i) && offset(i, s) == p
}

/// Under a contiguous layout the offsets of the valid multi-indices are
/// exactly `0 .. size`, each taken once.
pub proof fn lemma_contiguous_offsets(d: Seq<usize>, s: Seq<isize>)
    requires
        contiguous_layout(d, s),
        shape_fits(d),
        d.len() == s.len(),
    ensures
        forall|i: Seq<int>| #[trigger] valid_index(d, i) ==> 0 <= offset(i, s) < size(d),
        forall|i: Seq<int>, j: Seq<int>|
            #[trigger] valid_index(d, i) && #[trigger] valid_index(d, j) && offset(i, s) == offset(j, s) ==> i == j,
        forall|p: int| 0 <= p < size(d) ==> #[trigger] offset_reached(d, s, p),
{
    if standard_layout(d, s) {
        assert forall|i: Seq<int>| #[trigger] valid_index(d, i) implies 0 <= offset(i, s) < size(d) by {
            lemma_default_offset_is_ravel(d, i, s);
            lemma_ravel_bounds(d, i);
        }
        assert forall|i: Seq<int>, j: Seq<int>|
            #[trigger] valid_index(d, i) && #[trigger] valid_index(d, j) && offset(i, s) == offset(j, s) implies i == j by {
            lemma_default_offset_is_ravel(d, i, s);
            lemma_default_offset_is_ravel(d, j, s);
            lemma_ravel_injective(d, i, j);
        }
        assert forall|p: int| 0 <= p < size(d) implies #[trigger] offset_reached(d, s, p) by {
            lemma_unravel(d, p);
            lemma_default_offset_is_ravel(d, unravel(d, p), s);
        }
    } else {
        let id = |i: Seq<int>| i;
        assert(layouts_match(d, s, d, s, id, id));
        let (fwd, bwd) = lemma_order_match(d, s, d, s, 0, id, id);
        let d2 = order_by_stride(d, s, 0).0;
        let s2 = order_by_stride(d, s, 0).1;
        lemma_fortran_reversed(d2, s2);
        lemma_size_reverse(d2);
        assert(d2.reverse().reverse() =~= d2);
        assert(s2.reverse().reverse() =~= s2);
        assert forall|j: Seq<int>| valid_index(d2, j) implies offset(j, s2) == ravel(d2.reverse(), j.reverse()) && 0
            <= ravel(d2.reverse(), j.reverse()) < size(d2) by {
            lemma_valid_reverse(d2, j);
            lemma_offset_reverse(j, s2);
            lemma_default_offset_is_ravel(d2.reverse(), j.reverse(), s2.reverse());
            lemma_ravel_bounds(d2.reverse(), j.reverse());
        }
        assert forall|i: Seq<int>| #[trigger] valid_index(d, i) implies 0 <= offset(i, s) < size(d) by {
            assert(valid_index(d2, fwd(i)));
        }
        assert forall|i: Seq<int>, j: Seq<int>|
            #[trigger] valid_index(d, i) && #[trigger] valid_index(d, j) && offset(i, s) == offset(j, s) implies i == j by {
            let fi = fwd(i);
            let fj = fwd(j);
            assert(valid_index(d2, fi) && valid_index(d2, fj));
            lemma_valid_reverse(d2, fi);
            lemma_valid_reverse(d2, fj);
            lemma_ravel_injective(d2.reverse(), fi.reverse(), fj.reverse());
            assert(fi =~= fi.reverse().reverse());
            assert(fj =~= fj.reverse().reverse());
        }
        assert forall|p: int| 0 <= p < size(d) implies #[trigger] offset_reached(d, s, p) by {
            lemma_unravel(d2.reverse(), p);
            let u = unravel(d2.reverse(), p);
            lemma_valid_reverse(d2.reverse(), u);
            assert(u.reverse().reverse() =~= u);
            let j = u.reverse();
            assert(valid_index(d2, j));
            let i = bwd(j);
            assert(valid_index(d, i));
            assert(offset(i, s) == p);
        }
    }
}

/// Whether `strides` are column-major for `dims` on every axis of extent
/// other than 1, with at least two axes.
pub fn is_fortran_strides(dims: &Vec<usize>, strides: &Vec<isize>) -> (r: bool)
    requires
        shape_fits(dims@),
        strides.len() == dims.len(),
    ensures
        r == fortran_layout(dims@, strides@),
{
    let n = dims.len();
    if n <= 1 {
        return false;
    }
    let f = fortran_strides_of(dims);
    let mut k: usize = 0;
    while k < n
        invariant
            k <= n,
            n == dims.len(),
            strides.len() == n,
            strides_are(f@, fortran_strides(dims@)),
            forall|t: int| 0 <= t < k && dims@[t] != 1 ==> strides@[t] as int == #[trigger] fortran_strides(dims@)[t],
        decreases n - k,
    {
        if dims[k] != 1 && strides[k] != f[k] {
            assert(dims@[k as int] != 1 && strides@[k as int] as int != fortran_strides(dims@)[k as int]);
            return false;
        }
        k = k + 1;
    }
    true
}

/// Row-major strides of `dims`.
pub fn default_strides_of(dims: &Vec<usize>) -> (r: Vec<isize>)
    requires
        shape_fits(dims@),
    ensures
        strides_are(r@, default_strides(dims@)),
{
    let n = dims.len();
    let mut r: Vec<isize> = Vec::new();
    let mut i: usize = 0;
    while i < n
        invariant
            i <= n,
            n == dims.len(),
            r.len() == i,
        decreases n - i,
    {
        r.push(0);
        i = i + 1;
    }
    let mut k: usize = n;
    let mut acc: usize = 1;
    proof {
        lemma_default_strides_len(dims@);
        assert(dims@.subrange(n as int, n as int) =~= Seq::<usize>::empty());
    }
    while k > 0
        invariant
            k <= n,
            n == dims.len(),
            r.len() == n,
            shape_fits(dims@),
            default_strides(dims@).len() == n,
            acc as nat == size(dims@.subrange(k as int, n as int)),
            forall|j: int| k <= j < n ==> r@[j] as int == #[trigger] default_strides(dims@)[j],
        decreases k,
    {
        proof {
            lemma_default_strides_entry(dims@, k - 1);
            lemma_run_fits(dims@, k as int, n as int);
            lemma_run_fits(dims@, k - 1, n as int);
            lemma_size_split(dims@, k - 1);
        }
        r.set(k - 1, acc as isize);
        acc = dims[k - 1] * acc;
        k = k - 1;
    }
    r
}

/// Column-major strides of `dims`.
pub fn fortran_strides_of(dims: &Vec<usize>) -> (r: Vec<isize>)
    requires
        shape_fits(dims@),
    ensures
        strides_are(r@, fortran_strides(dims@)),
{
    let n = dims.len();
    let mut r: Vec<isize> = Vec::new();
    let mut acc: usize = 1;
    proof {
        assert(dims@.subrange(0, 0) =~= Seq::<usize>::empty());
    }
    while r.len() < n
        invariant
            r.len() <= n,
            n == dims.len(),
            shape_fits(dims@),
            acc as nat == size(dims@.subrange(0, r.len() as int)),
            forall|j: int| 0 <= j < r.len() ==> r@[j] as int == #[trigger] fortran_strides(dims@)[j],
        decreases n - r.len(),
    {
        let k = r.len();
        proof {
            lemma_run_fits(dims@, 0, k as int);
            lemma_run_fits(dims@, 0, k + 1);
            lemma_size_push(dims@.subrange(0, k as int), dims@[k as int]);
            assert(dims@.subrange(0, k as int).push(dims@[k as int]) =~= dims@.subrange(0, k + 1));
        }
        r.push(acc as isize);
        acc = acc * dims[k];
    }
    r
}

/// Whether two shapes are equal.
pub fn shapes_equal(a: &[usize], b: &[usize]) -> (r: bool)
    ensures
        r == (a@ == b@),
{
    if a.len() != b.len() {
        return false;
    }
    let mut k: usize = 0;
    while k < a.len()
        invariant
            k <= a.len(),
            a.len() == b.len(),
            forall|q: int| 0 <= q < k ==> a@[q] == b@[q],
        decreases a.len() - k,
    {
        if a[k] != b[k] {
            return false;
        }
        k = k + 1;
    }
    assert(a@ =~= b@);
    true
}

/// Checked element count: `Some(size)` exactly when the shape fits.
pub fn size_checked(dims: &Vec<usize>) -> (r: Option<usize>)
    ensures
        r is Some <==> shape_fits(dims@),
        r matches Some(n) ==> n as nat == size(dims@),
{
    let mut k: usize = dims.len();
    let mut nz: usize = 1;
    let mut n: usize = 1;
    while k > 0
        invariant
            k <= dims.len(),
            nz as nat == size_nz(dims@.subrange(k as int, dims.len() as int)),
            n as nat == size(dims@.subrange(k as int, dims.len() as int)),
            nz <= isize::MAX,
        decreases k,
    {
        let d = dims[k - 1];
        let h: usize = if d == 0 { 1 } else { d };
        assert(dims@.subrange(k - 1, dims.len() as int).drop_first() =~= dims@.subrange(
            k as int,
            dims.len() as int,
        ));
        proof {
            lemma_size_le_nz(dims@.subrange(k as int, dims.len() as int));
            let suf = dims@.subrange(k - 1, dims.len() as int);
            assert(suf[0] == d);
            assert(size_nz(suf) == h as nat * nz as nat);
            assert(size(suf) == d as nat * n as nat);
        }
        let prod = nz.checked_mul(h);
        assert(nz as nat * h as nat == h as nat * nz as nat) by (nonlinear_arith);
        if prod.is_none() || prod.unwrap() > isize::MAX as usize {
            proof {
                let pre = dims@.subrange(0, k - 1);
                let suf = dims@.subrange(k - 1, dims.len() as int);
                assert(dims@ =~= pre + suf);
                lemma_size_nz_append(pre, suf);
                let x = size_nz(pre);
                let y = size_nz(suf);
                assert(y > isize::MAX);
                assert(x * y >= y) by (nonlinear_arith)
                    requires
                        x >= 1,
                ;
            }
            return None;
        }
        let m = prod.unwrap();
        proof {
            let x = n as nat;
            let y = nz as nat;
            assert(d as nat * x <= h as nat * y) by (nonlinear_arith)
                requires
                    x <= y,
                    d as nat <= h as nat,
            ;
        }
        nz = m;
        n = d * n;
        k = k - 1;
    }
    assert(dims@.subrange(0, dims.len() as int) =~= dims@);
    Some(n)
}

} // verus!
