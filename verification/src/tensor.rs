//! Row-major element movement on flat tile data: NumPy-style broadcasting,
//! axis permutation, and slicing / concatenation along one axis. Elements
//! are opaque 32-bit patterns; nothing here looks at their values.

use vstd::prelude::*;
use vstd::relations::sorted_by;
use crate::shape::{
    prod, stride_of, spec_unravel, ravel, ravel_upto, lemma_prod_nonneg, lemma_prod_positive,
    lemma_fits_strides, lemma_unravel_bound, lemma_ravel_bound, lemma_unravel_ravel, lemma_ravel_unravel,
    row_major_strides, unravel, shape_size,
};

verus! {

/// `shape` left-padded with 1s to rank `n`.
pub open spec fn pad_shape(shape: Seq<usize>, n: nat) -> Seq<usize> {
    Seq::new((n - shape.len()) as nat, |i: int| 1usize) + shape
}

/// NumPy broadcasting compatibility: `from` has at most the rank of `to`,
/// and after right-aligning, each axis of `from` matches `to` or is 1.
pub open spec fn bcast_compatible(from: Seq<usize>, to: Seq<usize>) -> bool {
    &&& from.len() <= to.len()
    &&& forall|k: int|
        0 <= k < to.len() ==> (#[trigger] pad_shape(from, to.len())[k] == to[k] || pad_shape(
            from,
            to.len(),
        )[k] == 1)
}

/// Source multi-index (in the padded source shape `src`) of output position
/// `lin` of `to`: the output coordinate, or 0 along axes `src` broadcasts.
pub open spec fn bcast_coords(src: Seq<usize>, to: Seq<usize>, lin: int) -> Seq<int> {
    Seq::new(
        to.len(),
        |k: int|
            if src[k] == 1 {
                0
            } else {
                spec_unravel(lin, to)[k]
            },
    )
}

/// `data` (shape `from`) broadcast to `to`: `None` when incompatible, the
/// data unchanged when the padded shape already is `to`, else one element
/// per position of `to`, read from the broadcast source position.
pub open spec fn spec_broadcast(data: Seq<u32>, from: Seq<usize>, to: Seq<usize>) -> Option<Seq<u32>> {
    let src = pad_shape(from, to.len());
    if !bcast_compatible(from, to) {
        None
    } else if src == to {
        Some(data)
    } else {
        Some(Seq::new(prod(to) as nat, |lin: int| data[ravel(bcast_coords(src, to, lin), src)]))
    }
}

/// What [`broadcast_to`] needs to index and allocate: when it has to
/// expand, the target's element count fits in `usize` and `data` holds the
/// source's elements.
pub open spec fn bcast_feasible(len: int, from: Seq<usize>, to: Seq<usize>) -> bool {
    (bcast_compatible(from, to) && pad_shape(from, to.len()) != to) ==> (prod(to) <= usize::MAX && len
        >= prod(from))
}

proof fn lemma_prod_pad(shape: Seq<usize>, n: nat)
    requires
        shape.len() <= n,
    ensures
        prod(pad_shape(shape, n)) == prod(shape),
    decreases n - shape.len(),
{
    let p = pad_shape(shape, n);
    if n == shape.len() {
        assert(p =~= shape);
    } else {
        lemma_prod_pad(shape, (n - 1) as nat);
        assert(p.drop_first() =~= pad_shape(shape, (n - 1) as nat));
        assert(p[0] == 1usize);
        assert(prod(p) == 1 * prod(p.drop_first()));
    }
}

/// Copy of a slice's elements.
pub fn copy_u32s(data: &[u32]) -> (v: Vec<u32>)
    ensures
        v@ == data@,
{
    let mut v: Vec<u32> = Vec::new();
    let mut i: usize = 0;
    while i < data.len()
        invariant
            0 <= i <= data@.len(),
            v@ == data@.subrange(0, i as int),
        decreases data@.len() - i,
    {
        v.push(data[i]);
        i = i + 1;
    }
    assert(data@.subrange(0, data@.len() as int) =~= data@);
    v
}

/// Element-wise equality of two shapes.
pub fn shape_eq(a: &[usize], b: &[usize]) -> (r: bool)
    ensures
        r == (a@ == b@),
{
    if a.len() != b.len() {
        return false;
    }
    let mut i: usize = 0;
    while i < a.len()
        invariant
            a@.len() == b@.len(),
            0 <= i <= a@.len(),
            forall|j: int| 0 <= j < i ==> a@[j] == b@[j],
        decreases a@.len() - i,
    {
        if a[i] != b[i] {
            return false;
        }
        i = i + 1;
    }
    assert(a@ =~= b@);
    true
}

/// Row-major position of multi-index `c` in a shape with the given strides.
fn dot_coords(c: &Vec<usize>, strides: &Vec<usize>, Ghost(cs): Ghost<Seq<int>>, Ghost(shape): Ghost<Seq<usize>>) -> (r:
    usize)
    requires
        c@.len() == shape.len(),
        strides@.len() == shape.len(),
        cs.len() == shape.len(),
        forall|k: int| 0 <= k < shape.len() ==> #[trigger] strides@[k] == stride_of(shape, k),
        forall|k: int| 0 <= k < shape.len() ==> #[trigger] cs[k] == c@[k] as int,
        forall|k: int| 0 <= k < shape.len() ==> #[trigger] c@[k] < shape[k],
        prod(shape) <= usize::MAX,
    ensures
        r == ravel(cs, shape),
        r < prod(shape),
{
    let n = c.len();
    let mut acc: usize = 0;
    let mut k: usize = 0;
    while k < n
        invariant
            n == shape.len(),
            c@.len() == n,
            strides@.len() == n,
            cs.len() == n,
            forall|j: int| 0 <= j < n ==> #[trigger] strides@[j] == stride_of(shape, j),
            forall|j: int| 0 <= j < n ==> #[trigger] cs[j] == c@[j] as int,
            forall|j: int| 0 <= j < n ==> #[trigger] c@[j] < shape[j],
            prod(shape) <= usize::MAX,
            0 <= k <= n,
            acc == ravel_upto(cs, shape, k as int),
        decreases n - k,
    {
        proof {
            lemma_ravel_bound(cs, shape, k as int + 1);
            lemma_prod_nonneg(shape.subrange(k + 1, n as int));
            vstd::arithmetic::mul::lemma_mul_nonnegative(cs[k as int], stride_of(shape, k as int));
        }
        acc = acc + c[k] * strides[k];
        k = k + 1;
    }
    proof {
        lemma_ravel_bound(cs, shape, n as int);
        assert(shape.subrange(n as int, n as int) =~= Seq::<usize>::empty());
    }
    acc
}

/// Broadcast `data` (logical shape `from_shape`) to `to_shape` under NumPy
/// rules: right-aligned by rank, each axis matching or 1.
pub fn broadcast_to(data: &[u32], from_shape: &[usize], to_shape: &[usize]) -> (r: Option<Vec<u32>>)
    requires
        bcast_feasible(data@.len() as int, from_shape@, to_shape@),
    ensures
        match r {
            Some(v) => spec_broadcast(data@, from_shape@, to_shape@) == Some(v@),
            None => spec_broadcast(data@, from_shape@, to_shape@) is None,
        },
{
    if from_shape.len() > to_shape.len() {
        return None;
    }
    let pad = to_shape.len() - from_shape.len();
    let ghost src_spec = pad_shape(from_shape@, to_shape@.len());
    let mut src_shape: Vec<usize> = Vec::new();
    let mut i: usize = 0;
    while i < pad
        invariant
            0 <= i <= pad,
            pad == to_shape@.len() - from_shape@.len(),
            src_spec == pad_shape(from_shape@, to_shape@.len()),
            src_spec.len() == to_shape@.len(),
            src_shape@ == src_spec.subrange(0, i as int),
        decreases pad - i,
    {
        src_shape.push(1);
        i = i + 1;
    }
    let mut j: usize = 0;
    while j < from_shape.len()
        invariant
            0 <= j <= from_shape@.len(),
            pad == to_shape@.len() - from_shape@.len(),
            src_spec == pad_shape(from_shape@, to_shape@.len()),
            src_spec.len() == to_shape@.len(),
            src_shape@ == src_spec.subrange(0, pad + j),
        decreases from_shape@.len() - j,
    {
        src_shape.push(from_shape[j]);
        j = j + 1;
    }
    assert(src_shape@ =~= src_spec);
    let mut k: usize = 0;
    while k < to_shape.len()
        invariant
            0 <= k <= to_shape@.len(),
            src_shape@ == src_spec,
            src_spec == pad_shape(from_shape@, to_shape@.len()),
            src_spec.len() == to_shape@.len(),
            forall|q: int| 0 <= q < k ==> (#[trigger] src_spec[q] == to_shape@[q] || src_spec[q] == 1),
        decreases to_shape@.len() - k,
    {
        if src_shape[k] != to_shape[k] && src_shape[k] != 1 {
            assert(!(pad_shape(from_shape@, to_shape@.len())[k as int] == to_shape@[k as int] || pad_shape(
                from_shape@,
                to_shape@.len(),
            )[k as int] == 1));
            return None;
        }
        k = k + 1;
    }
    assert(bcast_compatible(from_shape@, to_shape@));
    if shape_eq(src_shape.as_slice(), to_shape) {
        return Some(copy_u32s(data));
    }
    assert(src_spec != to_shape@);
    proof {
        lemma_prod_nonneg(to_shape@);
    }
    let total = match shape_size(to_shape) {
        Some(t) => t,
        None => {
            return None;
        },
    };
    let mut out: Vec<u32> = Vec::new();
    if total == 0 {
        assert(out@ =~= Seq::new(prod(to_shape@) as nat, |lin: int| data@[ravel(bcast_coords(src_spec, to_shape@, lin), src_spec)]));
        return Some(out);
    }
    let dlen = data.len();
    proof {
        lemma_fits_strides(to_shape@);
        lemma_prod_pad(from_shape@, to_shape@.len());
        assert(prod(from_shape@) <= dlen);
        assert forall|q: int| 0 <= q < src_spec.len() implies #[trigger] src_spec[q] > 0 by {
            assert(src_spec[q] == to_shape@[q] || src_spec[q] == 1);
        }
        lemma_prod_positive(src_spec);
        lemma_fits_strides(src_spec);
    }
    let strides = row_major_strides(src_shape.as_slice());
    let mut lin: usize = 0;
    while lin < total
        invariant
            0 <= lin <= total,
            total == prod(to_shape@),
            0 < prod(to_shape@) <= usize::MAX,
            crate::shape::strides_fit(to_shape@),
            crate::shape::inner_axes_nonempty(to_shape@),
            src_shape@ == src_spec,
            src_spec == pad_shape(from_shape@, to_shape@.len()),
            src_spec.len() == to_shape@.len(),
            bcast_compatible(from_shape@, to_shape@),
            prod(src_spec) == prod(from_shape@),
            prod(src_spec) <= usize::MAX,
            prod(src_spec) <= data@.len(),
            strides@.len() == src_spec.len(),
            forall|q: int| 0 <= q < src_spec.len() ==> #[trigger] strides@[q] == stride_of(src_spec, q),
            out@.len() == lin,
            forall|p: int| 0 <= p < lin ==> #[trigger] out@[p] == data@[ravel(bcast_coords(src_spec, to_shape@, p), src_spec)],
        decreases total - lin,
    {
        let idx = unravel(lin, to_shape);
        proof {
            lemma_unravel_bound(lin as int, to_shape@);
        }
        let mut c: Vec<usize> = Vec::new();
        let mut q: usize = 0;
        let ghost cs = bcast_coords(src_spec, to_shape@, lin as int);
        while q < to_shape.len()
            invariant
                0 <= q <= to_shape@.len(),
                idx@.len() == to_shape@.len(),
                src_shape@ == src_spec,
                src_spec == pad_shape(from_shape@, to_shape@.len()),
                src_spec.len() == to_shape@.len(),
                bcast_compatible(from_shape@, to_shape@),
                forall|t: int| 0 <= t < to_shape@.len() ==> idx@[t] == #[trigger] spec_unravel(lin as int, to_shape@)[t],
                forall|t: int| 0 <= t < to_shape@.len() ==> 0 <= #[trigger] spec_unravel(lin as int, to_shape@)[t] < to_shape@[t],
                cs == bcast_coords(src_spec, to_shape@, lin as int),
                c@.len() == q,
                forall|t: int| 0 <= t < q ==> #[trigger] cs[t] == c@[t] as int,
                forall|t: int| 0 <= t < q ==> #[trigger] c@[t] < src_spec[t],
            decreases to_shape@.len() - q,
        {
            proof {
                assert(src_spec[q as int] == to_shape@[q as int] || src_spec[q as int] == 1);
                assert(idx@[q as int] == spec_unravel(lin as int, to_shape@)[q as int]);
            }
            if src_shape[q] == 1 {
                c.push(0);
            } else {
                c.push(idx[q]);
            }
            q = q + 1;
        }
        let src = dot_coords(&c, &strides, Ghost(cs), Ghost(src_spec));
        out.push(data[src]);
        lin = lin + 1;
    }
    assert(out@ =~= Seq::new(prod(to_shape@) as nat, |lin: int| data@[ravel(bcast_coords(src_spec, to_shape@, lin), src_spec)]));
    Some(out)
}

/// Axis extents after permuting by `perm`: axis `k` of the result is axis
/// `perm[k]` of `shape`.
pub open spec fn permuted_shape(shape: Seq<usize>, perm: Seq<usize>) -> Seq<usize> {
    Seq::new(perm.len(), |k: int| shape[perm[k] as int])
}

/// Multi-index of rank `n` with `c[perm[k]] = u[k]` written for `k < m` in
/// order, every other coordinate 0.
pub open spec fn scatter_upto(u: Seq<int>, perm: Seq<usize>, n: nat, m: int) -> Seq<int>
    decreases m,
{
    if m <= 0 {
        Seq::new(n, |j: int| 0int)
    } else {
        scatter_upto(u, perm, n, m - 1).update(perm[m - 1] as int, u[m - 1])
    }
}

proof fn lemma_scatter_len(u: Seq<int>, perm: Seq<usize>, n: nat, m: int)
    requires
        m <= perm.len(),
        forall|k: int| 0 <= k < perm.len() ==> #[trigger] perm[k] < n,
    ensures
        scatter_upto(u, perm, n, m).len() == n,
    decreases m,
{
    if m > 0 {
        lemma_scatter_len(u, perm, n, m - 1);
    }
}

/// Source multi-index of an element whose permuted coordinates are `u`.
pub open spec fn unpermute(u: Seq<int>, perm: Seq<usize>) -> Seq<int> {
    scatter_upto(u, perm, perm.len(), perm.len() as int)
}

/// `data` (shape `shape`) with its axes permuted by `perm`: output position
/// `lin` of the permuted shape reads the input element whose coordinate on
/// axis `perm[k]` is the output's coordinate on axis `k`.
pub open spec fn spec_transpose(data: Seq<u32>, shape: Seq<usize>, perm: Seq<usize>) -> Seq<u32> {
    Seq::new(
        data.len(),
        |lin: int| data[ravel(unpermute(spec_unravel(lin, permuted_shape(shape, perm)), perm), shape)],
    )
}

/// Transpose flat `data` of shape `shape` by `perm`.
pub fn transpose_data(data: &[u32], shape: &[usize], perm: &[usize]) -> (v: Vec<u32>)
    requires
        perm@.len() == shape@.len(),
        forall|k: int| 0 <= k < perm@.len() ==> #[trigger] perm@[k] < shape@.len(),
        data@.len() == prod(shape@),
        data@.len() == prod(permuted_shape(shape@, perm@)),
    ensures
        v@ == spec_transpose(data@, shape@, perm@),
{
    let n = shape.len();
    let len = data.len();
    let mut out: Vec<u32> = Vec::new();
    if len == 0 {
        assert(out@ =~= spec_transpose(data@, shape@, perm@));
        return out;
    }
    let mut new_shape: Vec<usize> = Vec::new();
    let mut k: usize = 0;
    while k < n
        invariant
            n == shape@.len(),
            perm@.len() == n,
            forall|q: int| 0 <= q < n ==> #[trigger] perm@[q] < n,
            0 <= k <= n,
            new_shape@ == permuted_shape(shape@, perm@).subrange(0, k as int),
        decreases n - k,
    {
        new_shape.push(shape[perm[k]]);
        k = k + 1;
    }
    let ghost ps = permuted_shape(shape@, perm@);
    assert(new_shape@ =~= ps);
    proof {
        lemma_fits_strides(shape@);
        lemma_fits_strides(ps);
    }
    let strides = row_major_strides(shape);
    let mut lin: usize = 0;
    while lin < len
        invariant
            n == shape@.len(),
            perm@.len() == n,
            forall|q: int| 0 <= q < n ==> #[trigger] perm@[q] < n,
            len == data@.len(),
            0 < len == prod(shape@) <= usize::MAX,
            len == prod(ps),
            ps == permuted_shape(shape@, perm@),
            new_shape@ == ps,
            crate::shape::strides_fit(ps),
            crate::shape::inner_axes_nonempty(ps),
            forall|q: int| 0 <= q < n ==> #[trigger] shape@[q] > 0,
            strides@.len() == n,
            forall|q: int| 0 <= q < n ==> #[trigger] strides@[q] == stride_of(shape@, q),
            0 <= lin <= len,
            out@.len() == lin,
            forall|p: int| 0 <= p < lin ==> #[trigger] out@[p] == spec_transpose(data@, shape@, perm@)[p],
        decreases len - lin,
    {
        let idx = unravel(lin, new_shape.as_slice());
        let ghost u = spec_unravel(lin as int, ps);
        proof {
            lemma_unravel_bound(lin as int, ps);
        }
        let mut c: Vec<usize> = Vec::new();
        let mut j: usize = 0;
        while j < n
            invariant
                0 <= j <= n,
                c@.len() == j,
                forall|t: int| 0 <= t < j ==> #[trigger] c@[t] == 0,
            decreases n - j,
        {
            c.push(0);
            j = j + 1;
        }
        let mut m: usize = 0;
        while m < n
            invariant
                n == shape@.len(),
                perm@.len() == n,
                forall|q: int| 0 <= q < n ==> #[trigger] perm@[q] < n,
                forall|q: int| 0 <= q < n ==> #[trigger] shape@[q] > 0,
                ps == permuted_shape(shape@, perm@),
                idx@.len() == n,
                forall|t: int| 0 <= t < n ==> idx@[t] == #[trigger] u[t],
                forall|t: int| 0 <= t < n ==> 0 <= #[trigger] u[t] < ps[t],
                0 <= m <= n,
                c@.len() == n,
                forall|t: int| 0 <= t < n ==> #[trigger] c@[t] as int == scatter_upto(u, perm@, n as nat, m as int)[t],
                forall|t: int| 0 <= t < n ==> #[trigger] c@[t] < shape@[t],
            decreases n - m,
        {
            proof {
                lemma_scatter_len(u, perm@, n as nat, m as int);
                lemma_scatter_len(u, perm@, n as nat, m as int + 1);
                assert(u[m as int] < ps[m as int]);
                assert(ps[m as int] == shape@[perm@[m as int] as int]);
            }
            c.set(perm[m], idx[m]);
            m = m + 1;
        }
        let ghost cs = unpermute(u, perm@);
        proof {
            lemma_scatter_len(u, perm@, n as nat, n as int);
        }
        assert(forall|t: int| 0 <= t < n ==> #[trigger] cs[t] == c@[t] as int);
        let src = dot_coords(&c, &strides, Ghost(cs), Ghost(shape@));
        out.push(data[src]);
        lin = lin + 1;
    }
    assert(out@ =~= spec_transpose(data@, shape@, perm@));
    out
}

/// Replacing one extent scales the element count: the product is that extent
/// times the product of the other axes.
pub proof fn lemma_prod_update(s: Seq<usize>, axis: int, x: usize)
    requires
        0 <= axis < s.len(),
    ensures
        prod(s.update(axis, x)) == x * prod(s.remove(axis)),
        prod(s) == s[axis] * prod(s.remove(axis)),
    decreases axis,
{
    if axis == 0 {
        assert(s.update(0, x).drop_first() =~= s.drop_first());
        assert(s.remove(0) =~= s.drop_first());
    } else {
        let t = s.drop_first();
        lemma_prod_update(t, axis - 1, x);
        assert(s.update(axis, x).drop_first() =~= t.update(axis - 1, x));
        assert(s.remove(axis).drop_first() =~= t.remove(axis - 1));
        assert(s.remove(axis)[0] == s[0]);
        assert(s.update(axis, x)[0] == s[0]);
        let r = prod(t.remove(axis - 1));
        let a = s[0] as int;
        let b = s[axis] as int;
        assert(a * (x * r) == x * (a * r)) by (nonlinear_arith);
        assert(a * (b * r) == b * (a * r)) by (nonlinear_arith);
    }
}

/// Shrinking extents never grows the element count.
pub proof fn lemma_prod_le_pointwise(a: Seq<usize>, b: Seq<usize>)
    requires
        a.len() == b.len(),
        forall|k: int| 0 <= k < a.len() ==> #[trigger] a[k] <= b[k],
    ensures
        prod(a) <= prod(b),
    decreases a.len(),
{
    if a.len() > 0 {
        lemma_prod_le_pointwise(a.drop_first(), b.drop_first());
        lemma_prod_nonneg(a.drop_first());
        let x = a[0] as int;
        let y = b[0] as int;
        let p = prod(a.drop_first());
        let q = prod(b.drop_first());
        assert(x * p <= y * q) by (nonlinear_arith)
            requires
                0 <= x <= y,
                0 <= p <= q,
        ;
    }
}

/// Extents bounded pointwise by a shape whose strides fit have strides that
/// fit too.
pub proof fn lemma_strides_fit_le(a: Seq<usize>, b: Seq<usize>)
    requires
        a.len() == b.len(),
        forall|k: int| 0 <= k < a.len() ==> #[trigger] a[k] <= b[k],
        crate::shape::strides_fit(b),
    ensures
        crate::shape::strides_fit(a),
{
    assert forall|i: int| 1 <= i <= a.len() implies #[trigger] prod(a.subrange(i, a.len() as int))
        <= usize::MAX by {
        let sa = a.subrange(i, a.len() as int);
        let sb = b.subrange(i, b.len() as int);
        assert forall|k: int| 0 <= k < sa.len() implies #[trigger] sa[k] <= sb[k] by {
            assert(sa[k] == a[i + k]);
            assert(sb[k] == b[i + k]);
        }
        lemma_prod_le_pointwise(sa, sb);
    }
}

/// `u` with its coordinate on `axis` moved by `delta`.
pub open spec fn shift_axis(u: Seq<int>, axis: int, delta: int) -> Seq<int> {
    u.update(axis, u[axis] + delta)
}

/// The elements of `data` (shape `shape`) whose coordinate on `axis` lies
/// in `[lo, hi)`, in row-major order of the sliced shape.
pub open spec fn spec_slice(data: Seq<u32>, shape: Seq<usize>, axis: int, lo: int, hi: int) -> Seq<u32> {
    let out = shape.update(axis, (hi - lo) as usize);
    Seq::new(prod(out) as nat, |lin: int| data[ravel(shift_axis(spec_unravel(lin, out), axis, lo), shape)])
}

/// Slice flat `data` (shape `shape`) along `axis` to `[lo, hi)`; returns the
/// sliced data and its shape.
pub fn slice_along(data: &[u32], shape: &[usize], axis: usize, lo: usize, hi: usize) -> (r: (Vec<u32>, Vec<usize>))
    requires
        axis < shape@.len(),
        lo <= hi <= shape@[axis as int],
        prod(shape@) <= usize::MAX,
        data@.len() >= prod(shape@),
    ensures
        r.1@ == shape@.update(axis as int, (hi - lo) as usize),
        r.0@ == spec_slice(data@, shape@, axis as int, lo as int, hi as int),
{
    let n = shape.len();
    let mut out_shape: Vec<usize> = Vec::new();
    let mut k: usize = 0;
    while k < n
        invariant
            n == shape@.len(),
            axis < n,
            lo <= hi,
            0 <= k <= n,
            out_shape@ == shape@.update(axis as int, (hi - lo) as usize).subrange(0, k as int),
        decreases n - k,
    {
        if k == axis {
            out_shape.push(hi - lo);
        } else {
            out_shape.push(shape[k]);
        }
        k = k + 1;
    }
    let ghost os = shape@.update(axis as int, (hi - lo) as usize);
    assert(out_shape@ =~= os);
    proof {
        assert forall|q: int| 0 <= q < n implies #[trigger] os[q] <= shape@[q] by {}
        lemma_prod_le_pointwise(os, shape@);
        lemma_prod_nonneg(os);
    }
    let total = match shape_size(out_shape.as_slice()) {
        Some(t) => t,
        None => {
            return (Vec::new(), out_shape);
        },
    };
    let mut out: Vec<u32> = Vec::new();
    if total == 0 {
        assert(out@ =~= spec_slice(data@, shape@, axis as int, lo as int, hi as int));
        return (out, out_shape);
    }
    proof {
        lemma_fits_strides(os);
        crate::shape::lemma_prod_pos_extents(os);
        assert forall|q: int| 0 <= q < n implies #[trigger] shape@[q] > 0 by {
            assert(os[q] > 0);
        }
        lemma_prod_positive(shape@);
        lemma_fits_strides(shape@);
    }
    let strides = row_major_strides(shape);
    let mut lin: usize = 0;
    while lin < total
        invariant
            n == shape@.len(),
            axis < n,
            lo <= hi <= shape@[axis as int],
            os == shape@.update(axis as int, (hi - lo) as usize),
            out_shape@ == os,
            0 < total == prod(os) <= usize::MAX,
            crate::shape::strides_fit(os),
            crate::shape::inner_axes_nonempty(os),
            prod(shape@) <= usize::MAX,
            data@.len() >= prod(shape@),
            strides@.len() == n,
            forall|q: int| 0 <= q < n ==> #[trigger] strides@[q] == stride_of(shape@, q),
            0 <= lin <= total,
            out@.len() == lin,
            forall|p: int| 0 <= p < lin ==> #[trigger] out@[p] == data@[ravel(shift_axis(spec_unravel(p, os), axis as int, lo as int), shape@)],
        decreases total - lin,
    {
        let idx = unravel(lin, out_shape.as_slice());
        let ghost u = spec_unravel(lin as int, os);
        let ghost cs = shift_axis(u, axis as int, lo as int);
        proof {
            lemma_unravel_bound(lin as int, os);
        }
        let mut c: Vec<usize> = Vec::new();
        let mut q: usize = 0;
        while q < n
            invariant
                n == shape@.len(),
                axis < n,
                lo <= hi <= shape@[axis as int],
                os == shape@.update(axis as int, (hi - lo) as usize),
                idx@.len() == n,
                u.len() == n,
                os.len() == n,
                forall|t: int| 0 <= t < n ==> idx@[t] == #[trigger] u[t],
                forall|t: int| 0 <= t < n ==> 0 <= #[trigger] u[t] < os[t],
                cs == shift_axis(u, axis as int, lo as int),
                0 <= q <= n,
                c@.len() == q,
                forall|t: int| 0 <= t < q ==> #[trigger] cs[t] == c@[t] as int,
                forall|t: int| 0 <= t < q ==> #[trigger] c@[t] < shape@[t],
            decreases n - q,
        {
            proof {
                assert(u[q as int] < os[q as int]);
                assert(cs[q as int] == (if q == axis { u[q as int] + lo } else { u[q as int] }));
            }
            if q == axis {
                c.push(idx[q] + lo);
            } else {
                c.push(idx[q]);
            }
            q = q + 1;
        }
        let src = dot_coords(&c, &strides, Ghost(cs), Ghost(shape@));
        out.push(data[src]);
        lin = lin + 1;
    }
    assert(out@ =~= spec_slice(data@, shape@, axis as int, lo as int, hi as int));
    (out, out_shape)
}

/// Extent along `axis` of the block appended by [`concat_along`]: `b`'s
/// element count over the product of `a_shape`'s other axes (0 if that
/// product is 0).
pub open spec fn concat_b_extent(a_shape: Seq<usize>, b_len: int, axis: int) -> int {
    let outer = prod(a_shape.remove(axis));
    if outer == 0 {
        0
    } else {
        b_len / outer
    }
}

/// Shape of `a` concatenated with a `b` of `b_len` elements along `axis`.
pub open spec fn concat_shape(a_shape: Seq<usize>, b_len: int, axis: int) -> Seq<usize> {
    a_shape.update(axis, (a_shape[axis] + concat_b_extent(a_shape, b_len, axis)) as usize)
}

/// `a` (shape `a_shape`) followed along `axis` by `b`, whose shape is
/// `a_shape` except along `axis`: positions before `a_shape[axis]` on that
/// axis read `a`, the rest read `b` shifted back by `a_shape[axis]`.
pub open spec fn spec_concat(a: Seq<u32>, a_shape: Seq<usize>, b: Seq<u32>, axis: int) -> Seq<u32> {
    let be = concat_b_extent(a_shape, b.len() as int, axis);
    let out = concat_shape(a_shape, b.len() as int, axis);
    let bs = a_shape.update(axis, be as usize);
    Seq::new(
        prod(out) as nat,
        |lin: int|
            {
                let u = spec_unravel(lin, out);
                if u[axis] < a_shape[axis] {
                    a[ravel(u, a_shape)]
                } else {
                    b[ravel(shift_axis(u, axis, -(a_shape[axis] as int)), bs)]
                }
            },
    )
}

/// What [`concat_along`] needs: `a` holds its shape's elements, and the
/// products it forms fit in `usize`.
pub open spec fn concat_feasible(a_len: int, a_shape: Seq<usize>, b_len: int, axis: int) -> bool {
    &&& 0 <= axis < a_shape.len()
    &&& a_len >= prod(a_shape)
    &&& prod(a_shape.remove(axis)) <= usize::MAX
    &&& a_shape[axis] + concat_b_extent(a_shape, b_len, axis) <= usize::MAX
    &&& prod(concat_shape(a_shape, b_len, axis)) <= usize::MAX
}

/// Concatenate `a` (shape `a_shape`) and `b` along `axis`; `b` shares
/// `a_shape` except along `axis`, where its extent follows from its length.
pub fn concat_along(a: &[u32], a_shape: &[usize], b: &[u32], axis: usize) -> (v: Vec<u32>)
    requires
        concat_feasible(a@.len() as int, a_shape@, b@.len() as int, axis as int),
    ensures
        v@ == spec_concat(a@, a_shape@, b@, axis as int),
{
    let n = a_shape.len();
    let mut rest: Vec<usize> = Vec::new();
    let mut k: usize = 0;
    while k < n
        invariant
            n == a_shape@.len(),
            axis < n,
            0 <= k <= n,
            rest@ == a_shape@.remove(axis as int).subrange(0, if k <= axis { k as int } else { k - 1 }),
        decreases n - k,
    {
        if k != axis {
            rest.push(a_shape[k]);
        }
        k = k + 1;
    }
    assert(rest@ =~= a_shape@.remove(axis as int));
    proof {
        lemma_prod_nonneg(a_shape@.remove(axis as int));
    }
    let outer = match shape_size(rest.as_slice()) {
        Some(o) => o,
        None => {
            return Vec::new();
        },
    };
    let b_extent: usize = if outer == 0 {
        0
    } else {
        b.len() / outer
    };
    let ghost be = concat_b_extent(a_shape@, b@.len() as int, axis as int);
    let a_ext = a_shape[axis];
    let mut out_shape: Vec<usize> = Vec::new();
    let mut b_shape: Vec<usize> = Vec::new();
    let mut j: usize = 0;
    let ghost os = concat_shape(a_shape@, b@.len() as int, axis as int);
    let ghost bs = a_shape@.update(axis as int, be as usize);
    while j < n
        invariant
            n == a_shape@.len(),
            axis < n,
            a_ext == a_shape@[axis as int],
            b_extent == be,
            a_ext + be <= usize::MAX,
            os == concat_shape(a_shape@, b@.len() as int, axis as int),
            bs == a_shape@.update(axis as int, be as usize),
            os.len() == n,
            bs.len() == n,
            be >= 0,
            be == concat_b_extent(a_shape@, b@.len() as int, axis as int),
            0 <= j <= n,
            out_shape@ == os.subrange(0, j as int),
            b_shape@ == bs.subrange(0, j as int),
        decreases n - j,
    {
        if j == axis {
            out_shape.push(a_ext + b_extent);
            b_shape.push(b_extent);
        } else {
            out_shape.push(a_shape[j]);
            b_shape.push(a_shape[j]);
        }
        j = j + 1;
    }
    assert(out_shape@ =~= os);
    assert(b_shape@ =~= bs);
    proof {
        lemma_prod_nonneg(os);
    }
    let total = match shape_size(out_shape.as_slice()) {
        Some(t) => t,
        None => {
            return Vec::new();
        },
    };
    let mut out: Vec<u32> = Vec::new();
    if total == 0 {
        assert(out@ =~= spec_concat(a@, a_shape@, b@, axis as int));
        return out;
    }
    proof {
        lemma_fits_strides(os);
        assert forall|q: int| 0 <= q < n implies #[trigger] a_shape@[q] <= os[q] by {}
        assert forall|q: int| 0 <= q < n implies #[trigger] bs[q] <= os[q] by {}
        lemma_strides_fit_le(a_shape@, os);
        lemma_strides_fit_le(bs, os);
        lemma_prod_le_pointwise(a_shape@, os);
        lemma_prod_le_pointwise(bs, os);
        lemma_prod_update(a_shape@, axis as int, be as usize);
        if outer > 0 {
            vstd::arithmetic::div_mod::lemma_fundamental_div_mod(b@.len() as int, outer as int);
            vstd::arithmetic::div_mod::lemma_mod_pos_bound(b@.len() as int, outer as int);
            vstd::arithmetic::mul::lemma_mul_is_commutative(outer as int, be);
        }
        assert(prod(bs) <= b@.len());
    }
    let a_strides = row_major_strides(a_shape);
    let b_strides = row_major_strides(b_shape.as_slice());
    let mut lin: usize = 0;
    while lin < total
        invariant
            n == a_shape@.len(),
            axis < n,
            a_ext == a_shape@[axis as int],
            os == concat_shape(a_shape@, b@.len() as int, axis as int),
            bs == a_shape@.update(axis as int, be as usize),
            be == concat_b_extent(a_shape@, b@.len() as int, axis as int),
            a_ext + be <= usize::MAX,
            be >= 0,
            os.len() == n,
            out_shape@ == os,
            0 < total == prod(os) <= usize::MAX,
            crate::shape::strides_fit(os),
            crate::shape::inner_axes_nonempty(os),
            prod(a_shape@) <= usize::MAX,
            prod(bs) <= usize::MAX,
            a@.len() >= prod(a_shape@),
            b@.len() >= prod(bs),
            a_strides@.len() == n,
            forall|q: int| 0 <= q < n ==> #[trigger] a_strides@[q] == stride_of(a_shape@, q),
            b_strides@.len() == n,
            forall|q: int| 0 <= q < n ==> #[trigger] b_strides@[q] == stride_of(bs, q),
            0 <= lin <= total,
            out@.len() == lin,
            forall|p: int| 0 <= p < lin ==> #[trigger] out@[p] == spec_concat(a@, a_shape@, b@, axis as int)[p],
        decreases total - lin,
    {
        let idx = unravel(lin, out_shape.as_slice());
        let ghost u = spec_unravel(lin as int, os);
        proof {
            lemma_unravel_bound(lin as int, os);
        }
        let from_a = idx[axis] < a_ext;
        let ghost cs = if from_a { u } else { shift_axis(u, axis as int, -(a_ext as int)) };
        let ghost sh = if from_a { a_shape@ } else { bs };
        let mut c: Vec<usize> = Vec::new();
        let mut q: usize = 0;
        while q < n
            invariant
                n == a_shape@.len(),
                axis < n,
                a_ext == a_shape@[axis as int],
                os == concat_shape(a_shape@, b@.len() as int, axis as int),
                bs == a_shape@.update(axis as int, be as usize),
                be == concat_b_extent(a_shape@, b@.len() as int, axis as int),
                idx@.len() == n,
                u.len() == n,
                os.len() == n,
                a_ext + be <= usize::MAX,
                be >= 0,
                forall|t: int| 0 <= t < n ==> idx@[t] == #[trigger] u[t],
                forall|t: int| 0 <= t < n ==> 0 <= #[trigger] u[t] < os[t],
                from_a == (u[axis as int] < a_ext),
                cs == (if from_a { u } else { shift_axis(u, axis as int, -(a_ext as int)) }),
                sh == (if from_a { a_shape@ } else { bs }),
                sh.len() == n,
                0 <= q <= n,
                c@.len() == q,
                forall|t: int| 0 <= t < q ==> #[trigger] cs[t] == c@[t] as int,
                forall|t: int| 0 <= t < q ==> #[trigger] c@[t] < sh[t],
            decreases n - q,
        {
            proof {
                assert(u[q as int] < os[q as int]);
                assert(os[axis as int] == a_ext + be);
                assert(cs[q as int] == (if q == axis && !from_a { u[q as int] - a_ext } else { u[q as int] }));
            }
            if q == axis && !from_a {
                c.push(idx[q] - a_ext);
            } else {
                c.push(idx[q]);
            }
            q = q + 1;
        }
        if from_a {
            let src = dot_coords(&c, &a_strides, Ghost(cs), Ghost(a_shape@));
            out.push(a[src]);
        } else {
            let src = dot_coords(&c, &b_strides, Ghost(cs), Ghost(bs));
            out.push(b[src]);
        }
        lin = lin + 1;
    }
    assert(out@ =~= spec_concat(a@, a_shape@, b@, axis as int));
    out
}

/// The usual order on `i64`.
pub open spec fn i64_le() -> spec_fn(i64, i64) -> bool {
    |a: i64, b: i64| a <= b
}

/// `v` in ascending order.
pub fn sort_i64s(v: &Vec<i64>) -> (r: Vec<i64>)
    ensures
        r@ == v@.sort_by(i64_le()),
{
    let mut out: Vec<i64> = Vec::new();
    let mut i: usize = 0;
    assert(v@.subrange(0, 0) =~= out@);
    while i < v.len()
        invariant
            0 <= i <= v@.len(),
            sorted_by(out@, i64_le()),
            out@.to_multiset() == v@.subrange(0, i as int).to_multiset(),
        decreases v@.len() - i,
    {
        let x = v[i];
        let mut p: usize = 0;
        while p < out.len() && out[p] <= x
            invariant
                0 <= p <= out@.len(),
                forall|q: int| 0 <= q < p ==> #[trigger] out@[q] <= x,
            decreases out@.len() - p,
        {
            p = p + 1;
        }
        let ghost old_out = out@;
        proof {
            assert forall|q: int| p <= q < old_out.len() implies #[trigger] old_out[q] > x by {
                if q > p {
                    assert((i64_le())(old_out[p as int], old_out[q]));
                }
            }
            vstd::seq_lib::to_multiset_insert(old_out, p as int, x);
            vstd::seq_lib::to_multiset_build(v@.subrange(0, i as int), v@[i as int]);
            assert(v@.subrange(0, i + 1) =~= v@.subrange(0, i as int).push(v@[i as int]));
        }
        out.insert(p, x);
        proof {
            assert forall|a: int, b: int| 0 <= a < b < out@.len() implies #[trigger] (i64_le())(out@[a], out@[b]) by {
                if b < p {
                    assert((i64_le())(old_out[a], old_out[b]));
                } else if a > p {
                    assert((i64_le())(old_out[a - 1], old_out[b - 1]));
                } else if a < p {
                    assert(out@[a] == old_out[a]);
                }
            }
        }
        i = i + 1;
    }
    proof {
        assert(v@.subrange(0, v@.len() as int) =~= v@);
        v@.lemma_sort_by_ensures(i64_le());
        vstd::seq_lib::lemma_sorted_unique(out@, v@.sort_by(i64_le()), i64_le());
    }
    out
}

/// `from_shape` left-padded to the rank of `to_shape`, when the two are
/// broadcast-compatible.
pub fn bcast_plan(from_shape: &[usize], to_shape: &[usize]) -> (r: Option<Vec<usize>>)
    ensures
        r is Some <==> bcast_compatible(from_shape@, to_shape@),
        r matches Some(p) ==> p@ == pad_shape(from_shape@, to_shape@.len()),
{
    if from_shape.len() > to_shape.len() {
        return None;
    }
    let pad = to_shape.len() - from_shape.len();
    let ghost src_spec = pad_shape(from_shape@, to_shape@.len());
    let mut src_shape: Vec<usize> = Vec::new();
    let mut i: usize = 0;
    while i < to_shape.len()
        invariant
            0 <= i <= to_shape@.len(),
            pad == to_shape@.len() - from_shape@.len(),
            src_spec == pad_shape(from_shape@, to_shape@.len()),
            src_spec.len() == to_shape@.len(),
            src_shape@ == src_spec.subrange(0, i as int),
        decreases to_shape@.len() - i,
    {
        if i < pad {
            src_shape.push(1);
        } else {
            src_shape.push(from_shape[i - pad]);
        }
        i = i + 1;
    }
    assert(src_shape@ =~= src_spec);
    let mut k: usize = 0;
    while k < to_shape.len()
        invariant
            0 <= k <= to_shape@.len(),
            src_shape@ == src_spec,
            src_spec == pad_shape(from_shape@, to_shape@.len()),
            src_spec.len() == to_shape@.len(),
            forall|q: int| 0 <= q < k ==> (#[trigger] src_spec[q] == to_shape@[q] || src_spec[q] == 1),
        decreases to_shape@.len() - k,
    {
        if src_shape[k] != to_shape[k] && src_shape[k] != 1 {
            assert(!(pad_shape(from_shape@, to_shape@.len())[k as int] == to_shape@[k as int] || pad_shape(
                from_shape@,
                to_shape@.len(),
            )[k as int] == 1));
            return None;
        }
        k = k + 1;
    }
    Some(src_shape)
}

/// Whether [`broadcast_to`] can run on `len` elements of shape `from_shape`
/// towards `to_shape` (see [`bcast_feasible`]).
pub fn bcast_feasible_check(len: usize, from_shape: &[usize], to_shape: &[usize]) -> (b: bool)
    ensures
        b == bcast_feasible(len as int, from_shape@, to_shape@),
{
    match bcast_plan(from_shape, to_shape) {
        None => true,
        Some(p) => {
            if shape_eq(p.as_slice(), to_shape) {
                return true;
            }
            proof {
                lemma_prod_nonneg(to_shape@);
                lemma_prod_nonneg(from_shape@);
            }
            let fits = match shape_size(to_shape) {
                Some(_) => true,
                None => false,
            };
            let has = match shape_size(from_shape) {
                Some(f) => f <= len,
                None => false,
            };
            fits && has
        },
    }
}

/// Whether [`concat_along`] can run (see [`concat_feasible`]).
pub fn concat_feasible_check(a_len: usize, a_shape: &[usize], b_len: usize, axis: usize) -> (b: bool)
    ensures
        b == concat_feasible(a_len as int, a_shape@, b_len as int, axis as int),
{
    let n = a_shape.len();
    if axis >= n {
        return false;
    }
    proof {
        lemma_prod_nonneg(a_shape@);
        lemma_prod_nonneg(a_shape@.remove(axis as int));
    }
    match shape_size(a_shape) {
        Some(p) => {
            if p > a_len {
                return false;
            }
        },
        None => {
            return false;
        },
    }
    let mut rest: Vec<usize> = Vec::new();
    let mut k: usize = 0;
    while k < n
        invariant
            n == a_shape@.len(),
            axis < n,
            0 <= k <= n,
            rest@ == a_shape@.remove(axis as int).subrange(0, if k <= axis { k as int } else { k - 1 }),
        decreases n - k,
    {
        if k != axis {
            rest.push(a_shape[k]);
        }
        k = k + 1;
    }
    assert(rest@ =~= a_shape@.remove(axis as int));
    let outer = match shape_size(rest.as_slice()) {
        Some(o) => o,
        None => {
            return false;
        },
    };
    let be: usize = if outer == 0 {
        0
    } else {
        b_len / outer
    };
    let ext = match a_shape[axis].checked_add(be) {
        Some(e) => e,
        None => {
            return false;
        },
    };
    let mut out_shape: Vec<usize> = Vec::new();
    let mut j: usize = 0;
    while j < n
        invariant
            n == a_shape@.len(),
            axis < n,
            0 <= j <= n,
            out_shape@ == a_shape@.update(axis as int, ext).subrange(0, j as int),
        decreases n - j,
    {
        if j == axis {
            out_shape.push(ext);
        } else {
            out_shape.push(a_shape[j]);
        }
        j = j + 1;
    }
    assert(out_shape@ =~= concat_shape(a_shape@, b_len as int, axis as int));
    proof {
        lemma_prod_nonneg(out_shape@);
    }
    match shape_size(out_shape.as_slice()) {
        Some(_) => true,
        None => false,
    }
}

/// Splitting a tile along an axis and concatenating the two slices back
/// along that axis gives the tile again.
pub proof fn lemma_slice_concat_roundtrip(data: Seq<u32>, shape: Seq<usize>, axis: int, m: int)
    requires
        0 <= axis < shape.len(),
        0 <= m <= shape[axis],
        data.len() == prod(shape),
    ensures
        spec_concat(
            spec_slice(data, shape, axis, 0, m),
            shape.update(axis, m as usize),
            spec_slice(data, shape, axis, m, shape[axis] as int),
            axis,
        ) == data,
{
    let n = shape[axis] as int;
    let a_shape = shape.update(axis, m as usize);
    let b_shape = shape.update(axis, (n - m) as usize);
    let a = spec_slice(data, shape, axis, 0, m);
    let b = spec_slice(data, shape, axis, m, n);
    assert(a_shape.update(axis, (m - 0) as usize) =~= a_shape);
    assert(a_shape.remove(axis) =~= shape.remove(axis));
    let outer = prod(shape.remove(axis));
    lemma_prod_update(shape, axis, (n - m) as usize);
    lemma_prod_update(shape, axis, m as usize);
    lemma_prod_update(shape, axis, n as usize);
    assert(shape.update(axis, n as usize) =~= shape);
    lemma_prod_nonneg(shape.remove(axis));
    let be = concat_b_extent(a_shape, b.len() as int, axis);
    let out = concat_shape(a_shape, b.len() as int, axis);
    let r = spec_concat(a, a_shape, b, axis);
    if outer == 0 {
        assert(prod(shape) == 0) by {
            assert(n * outer == 0) by (nonlinear_arith)
                requires
                    outer == 0,
            ;
        }
        assert(be == 0);
        assert(out =~= a_shape);
        assert(prod(a_shape) == 0) by {
            assert(m * outer == 0) by (nonlinear_arith)
                requires
                    outer == 0,
            ;
        }
        assert(r =~= data);
    } else {
        assert(b.len() == (n - m) * outer);
        vstd::arithmetic::div_mod::lemma_div_multiples_vanish(n - m, outer);
        assert(be == n - m);
        assert(out =~= shape);
        let bs = a_shape.update(axis, be as usize);
        assert(bs =~= b_shape);
        assert(r.len() == data.len());
        assert forall|lin: int| 0 <= lin < data.len() implies #[trigger] r[lin] == data[lin] by {
            let u = spec_unravel(lin, shape);
            lemma_unravel_bound(lin, shape);
            lemma_ravel_unravel(lin, shape);
            if u[axis] < m {
                assert forall|j: int| 0 <= j < a_shape.len() implies 0 <= #[trigger] u[j] < a_shape[j] by {}
                let p = ravel(u, a_shape);
                lemma_ravel_bound(u, a_shape, a_shape.len() as int);
                assert(a_shape.subrange(a_shape.len() as int, a_shape.len() as int) =~= Seq::<usize>::empty());
                lemma_unravel_ravel(u, a_shape);
                assert(shift_axis(spec_unravel(p, a_shape), axis, 0) =~= u);
                assert(r[lin] == a[p]);
            } else {
                let v = shift_axis(u, axis, -m);
                assert forall|j: int| 0 <= j < b_shape.len() implies 0 <= #[trigger] v[j] < b_shape[j] by {}
                let q = ravel(v, b_shape);
                lemma_ravel_bound(v, b_shape, b_shape.len() as int);
                assert(b_shape.subrange(b_shape.len() as int, b_shape.len() as int) =~= Seq::<usize>::empty());
                lemma_unravel_ravel(v, b_shape);
                assert(shift_axis(spec_unravel(q, b_shape), axis, m) =~= u);
                assert(r[lin] == b[q]);
            }
        }
        assert(r =~= data);
    }
}

} // verus!
