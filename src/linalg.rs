//! General matrix multiplication on arrays of any strides.
use vstd::prelude::*;
use crate::array::{ArrayBase, Ownership};
use crate::shape::{default_strides_of, ix, unravel, unravel_index, valid_index};
use crate::zip::{lemma_write_done, lemma_write_next, lemma_write_start, lemma_write_step, write_progress};

verus! {

/// The two-dimensional multi-index `(i, j)`.
pub open spec fn pair(i: int, j: int) -> Seq<int> {
    seq![i, j]
}

/// `Σ_{s < t} a[i, s] · b[s, j]`.
pub open spec fn dot_prefix<'x, 'y>(a: &ArrayBase<'x, i64>, b: &ArrayBase<'y, i64>, i: int, j: int, t: int) -> int
    decreases t,
{
    if t <= 0 {
        0
    } else {
        dot_prefix(a, b, i, j, t - 1) + term(a, b, i, j, t - 1)
    }
}

/// `a[i, t] · b[t, j]`.
pub open spec fn term<'x, 'y>(a: &ArrayBase<'x, i64>, b: &ArrayBase<'y, i64>, i: int, j: int, t: int) -> int {
    a.at(pair(i, t)) * b.at(pair(t, j))
}

/// Entry `(i, j)` of `alpha · (a @ b) + beta · c`.
pub open spec fn mat_mul_entry<'x, 'y, 'z>(
    alpha: i64,
    a: &ArrayBase<'x, i64>,
    b: &ArrayBase<'y, i64>,
    beta: i64,
    c: &ArrayBase<'z, i64>,
    i: int,
    j: int,
) -> int {
    alpha * dot_prefix(a, b, i, j, a.dims()[1] as int) + beta * c.at(pair(i, j))
}

pub open spec fn fits_i64(x: int) -> bool {
    i64::MIN <= x <= i64::MAX
}

/// Every product, partial sum and scaled term of the computation fits in an `i64`.
pub open spec fn mat_mul_fits<'x, 'y, 'z>(
    alpha: i64,
    a: &ArrayBase<'x, i64>,
    b: &ArrayBase<'y, i64>,
    beta: i64,
    c: &ArrayBase<'z, i64>,
) -> bool {
    let m = a.dims()[0] as int;
    let k = a.dims()[1] as int;
    let n = b.dims()[1] as int;
    &&& forall|i: int, j: int, t: int|
        0 <= i < m && 0 <= j < n && 0 <= t < k ==> fits_i64(#[trigger] term(a, b, i, j, t))
    &&& forall|i: int, j: int, t: int|
        0 <= i < m && 0 <= j < n && 0 < t <= k ==> fits_i64(#[trigger] dot_prefix(a, b, i, j, t))
    &&& forall|i: int, j: int|
        0 <= i < m && 0 <= j < n ==> fits_i64(alpha * #[trigger] dot_prefix(a, b, i, j, k))
            && fits_i64(beta * c.at(pair(i, j))) && fits_i64(mat_mul_entry(alpha, a, b, beta, c, i, j))
}

/// The two-dimensional index `(i, j)` as a vector.
fn index2(i: usize, j: usize) -> (r: Vec<usize>)
    ensures
        ix(r@) == pair(i as int, j as int),
{
    let r = vec![i, j];
    assert(ix(r@) =~= seq![i as int, j as int]);
    r
}

/// `c := alpha · (a @ b) + beta · c` for a matrix `a` of shape `(m, k)`, `b`
/// of shape `(k, n)` and `c` of shape `(m, n)`, each with any strides
/// (negative, or zero for a broadcast operand). When `beta` is zero the
/// old contents of `c` are not read.
pub fn general_mat_mul<'x, 'y, 'z>(
    alpha: i64,
    a: &ArrayBase<'x, i64>,
    b: &ArrayBase<'y, i64>,
    beta: i64,
    c: &mut ArrayBase<'z, i64>,
)
    requires
        a.wf(),
        b.wf(),
        old(c).wf(),
        old(c).mode() != Ownership::View,
        a.dims().len() == 2,
        b.dims().len() == 2,
        old(c).dims().len() == 2,
        a.dims()[1] == b.dims()[0],
        old(c).dims()[0] == a.dims()[0],
        old(c).dims()[1] == b.dims()[1],
        mat_mul_fits(alpha, a, b, beta, old(c)),
    ensures
        final(c).wf(),
        final(c).mode() == old(c).mode(),
        old(c).writes_within(final(c)),
        old(c).mode() == Ownership::ViewMut ==> *final(final(c).lender()) == *final(old(c).lender()),
        final(c).dims() == old(c).dims(),
        final(c).steps() == old(c).steps(),
        final(c).base() == old(c).base(),
        forall|i: int, j: int|
            0 <= i < old(c).dims()[0] && 0 <= j < old(c).dims()[1] ==> #[trigger] final(c).at(pair(i, j)) as int
                == mat_mul_entry(alpha, a, b, beta, old(c), i, j),
{
    let ghost c0 = *c;
    let ghost written = |idx: Seq<int>, v: i64| v as int == mat_mul_entry(alpha, a, b, beta, &c0, idx[0], idx[1]);
    let kk = a.shape()[1];
    let cdims = c.dim();
    let ds = default_strides_of(&cdims);
    let total = c.len();
    let mut buf = c.take_buf();
    proof {
        lemma_write_start(&c0, written);
        assert forall|q: Seq<int>| valid_index(c.dims(), q) implies 0 <= #[trigger] c.addr(q) < c0.buffer().len() by {
            assert(c.addr(q) == c0.addr(q));
        }
    }
    let mut p: usize = 0;
    while p < total
        invariant
            c0.wf(),
            c0.mode() != Ownership::View,
            a.wf(),
            b.wf(),
            a.dims().len() == 2,
            b.dims().len() == 2,
            c0.dims().len() == 2,
            a.dims()[1] == b.dims()[0],
            c0.dims()[0] == a.dims()[0],
            c0.dims()[1] == b.dims()[1],
            kk == a.dims()[1],
            mat_mul_fits(alpha, a, b, beta, &c0),
            cdims@ == c0.dims(),
            crate::shape::strides_are(ds@, crate::shape::default_strides(c0.dims())),
            total as nat == c0.count(),
            p <= total,
            c.base() == c0.base(),
            c.dims() == c0.dims(),
            c.steps() == c0.steps(),
            c.mode() == c0.mode(),
            c.fits_in(c0.buffer().len() as int),
            write_progress(&c0, written, buf@, p as int),
            forall|idx: Seq<int>, v: i64| #[trigger] written(idx, v) == (v as int == mat_mul_entry(alpha, a, b, beta, &c0, idx[0], idx[1])),
        decreases total - p,
    {
        let idx = unravel_index(&cdims, &ds, p);
        let i = idx[0];
        let j = idx[1];
        proof {
            assert(ix(idx@)[0] == i as int);
            assert(ix(idx@)[1] == j as int);
            assert(i < c0.dims()[0] && j < c0.dims()[1]);
            lemma_write_next(&c0, written, buf@, p as int);
        }
        let mut sum: i64 = 0;
        let mut t: usize = 0;
        while t < kk
            invariant
                a.wf(),
                b.wf(),
                a.dims().len() == 2,
                b.dims().len() == 2,
                a.dims()[1] == b.dims()[0],
                kk == a.dims()[1],
                0 <= i < a.dims()[0],
                0 <= j < b.dims()[1],
                t <= kk,
                c0.dims()[0] == a.dims()[0],
                c0.dims()[1] == b.dims()[1],
                mat_mul_fits(alpha, a, b, beta, &c0),
                sum as int == dot_prefix(a, b, i as int, j as int, t as int),
            decreases kk - t,
        {
            let ai = index2(i, t);
            let bi = index2(t, j);
            let x = *a.uget(&ai);
            let y = *b.uget(&bi);
            proof {
                assert(fits_i64(term(a, b, i as int, j as int, t as int)));
                assert(fits_i64(dot_prefix(a, b, i as int, j as int, t + 1)));
                assert(x as int * y as int == term(a, b, i as int, j as int, t as int));
            }
            sum = sum + x * y;
            t = t + 1;
        }
        proof {
            assert(fits_i64(alpha * dot_prefix(a, b, i as int, j as int, kk as int)));
        }
        let val: i64 = if beta == 0 {
            proof {
                let cv = c0.at(pair(i as int, j as int)) as int;
                let bv = beta as int;
                assert(bv * cv == 0) by (nonlinear_arith)
                    requires
                        bv == 0,
                ;
            }
            alpha * sum
        } else {
            let cp = c.position(&idx, Ghost(c0.buffer().len() as int));
            proof {
                assert(fits_i64(beta * c0.at(pair(i as int, j as int))));
                assert(ix(idx@) =~= pair(i as int, j as int));
                assert(buf@[cp as int] == c0.at(pair(i as int, j as int)));
            }
            alpha * sum + beta * buf[cp]
        };
        proof {
            assert(ix(idx@) =~= pair(i as int, j as int));
            assert(ix(idx@) == unravel(c0.dims(), p as int));
            assert(written(unravel(c0.dims(), p as int), val));
            lemma_write_step(&c0, written, buf@, p as int, val);
        }
        let wp = c.position(&idx, Ghost(c0.buffer().len() as int));
        buf.set(wp, val);
        p = p + 1;
    }
    let ghost fb = buf@;
    c.put_buf(buf);
    proof {
        lemma_write_done(&c0, written, fb, c);
        assert forall|i: int, j: int| 0 <= i < c0.dims()[0] && 0 <= j < c0.dims()[1] implies #[trigger] c.at(pair(i, j)) as int
            == mat_mul_entry(alpha, a, b, beta, &c0, i, j) by {
            assert(valid_index(c0.dims(), pair(i, j)));
            assert(written(pair(i, j), c.at(pair(i, j))));
        }
    }
}

} // verus!
