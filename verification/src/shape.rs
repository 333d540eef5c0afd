//! Row-major shape arithmetic: element counts, strides, flat <-> multi-index.

use vstd::prelude::*;

verus! {

/// Product of all extents (the element count of a shape).
pub open spec fn prod(s: Seq<usize>) -> int
    decreases s.len(),
{
    if s.len() == 0 {
        1
    } else {
        s[0] * prod(s.drop_first())
    }
}

/// Row-major element stride of axis `i`: the product of the extents after it.
pub open spec fn stride_of(shape: Seq<usize>, i: int) -> int {
    prod(shape.subrange(i + 1, shape.len() as int))
}

/// Every suffix product from axis 1 on fits in `usize` (what computing the
/// strides needs).
pub open spec fn strides_fit(shape: Seq<usize>) -> bool {
    forall|i: int| 1 <= i <= shape.len() ==> #[trigger] prod(shape.subrange(i, shape.len() as int)) <= usize::MAX
}

/// Every axis after the first is non-empty, so every stride is positive.
pub open spec fn inner_axes_nonempty(shape: Seq<usize>) -> bool {
    forall|i: int| 1 <= i < shape.len() ==> #[trigger] shape[i] > 0
}

/// Multi-index of flat position `lin` in row-major order. The leading
/// coordinate is not reduced, so positions past the end keep counting along
/// axis 0.
pub open spec fn spec_unravel(lin: int, shape: Seq<usize>) -> Seq<int> {
    Seq::new(
        shape.len(),
        |k: int|
            if k == 0 {
                lin / stride_of(shape, 0)
            } else {
                (lin % stride_of(shape, k - 1)) / stride_of(shape, k)
            },
    )
}

pub proof fn lemma_prod_nonneg(s: Seq<usize>)
    ensures
        prod(s) >= 0,
    decreases s.len(),
{
    if s.len() > 0 {
        lemma_prod_nonneg(s.drop_first());
        vstd::arithmetic::mul::lemma_mul_nonnegative(s[0] as int, prod(s.drop_first()));
    }
}

pub proof fn lemma_prod_step(s: Seq<usize>, i: int)
    requires
        0 <= i < s.len(),
    ensures
        prod(s.subrange(i, s.len() as int)) == s[i] * prod(s.subrange(i + 1, s.len() as int)),
{
    assert(s.subrange(i, s.len() as int).drop_first() =~= s.subrange(i + 1, s.len() as int));
}

pub proof fn lemma_prod_positive(s: Seq<usize>)
    requires
        forall|i: int| 0 <= i < s.len() ==> #[trigger] s[i] > 0,
    ensures
        prod(s) > 0,
    decreases s.len(),
{
    if s.len() > 0 {
        lemma_prod_positive(s.drop_first());
        vstd::arithmetic::mul::lemma_mul_strictly_positive(s[0] as int, prod(s.drop_first()));
    }
}

proof fn lemma_stride_positive(shape: Seq<usize>, k: int)
    requires
        inner_axes_nonempty(shape),
        0 <= k < shape.len(),
    ensures
        stride_of(shape, k) > 0,
{
    let t = shape.subrange(k + 1, shape.len() as int);
    assert forall|i: int| 0 <= i < t.len() implies #[trigger] t[i] > 0 by {
        assert(t[i] == shape[k + 1 + i]);
    }
    lemma_prod_positive(t);
}

/// Row-major strides for `shape`, in elements.
pub fn row_major_strides(shape: &[usize]) -> (strides: Vec<usize>)
    requires
        strides_fit(shape@),
    ensures
        strides@.len() == shape@.len(),
        forall|i: int| 0 <= i < shape@.len() ==> strides@[i] == stride_of(shape@, i),
{
    let n = shape.len();
    let mut strides: Vec<usize> = Vec::new();
    let mut j: usize = 0;
    while j < n
        invariant
            0 <= j <= n,
            strides@.len() == j,
            forall|i: int| 0 <= i < j ==> strides@[i] == 1,
        decreases n - j,
    {
        strides.push(1);
        j = j + 1;
    }
    if n == 0 {
        return strides;
    }
    assert(shape@.subrange(n as int, n as int) =~= Seq::<usize>::empty());
    let mut i: usize = n - 1;
    while i > 0
        invariant
            n == shape@.len(),
            n >= 1,
            0 <= i < n,
            strides@.len() == n,
            strides_fit(shape@),
            forall|k: int| 0 <= k < i ==> strides@[k] == 1,
            forall|k: int| i <= k < n ==> strides@[k] == stride_of(shape@, k),
        decreases i,
    {
        proof {
            lemma_prod_step(shape@, i as int);
            assert(prod(shape@.subrange(i as int, n as int)) <= usize::MAX);
            vstd::arithmetic::mul::lemma_mul_is_commutative(
                shape@[i as int] as int,
                stride_of(shape@, i as int),
            );
            assert(stride_of(shape@, i as int - 1) == prod(shape@.subrange(i as int, n as int)));
        }
        let v = strides[i] * shape[i];
        strides.set(i - 1, v);
        i = i - 1;
    }
    strides
}

/// Multi-index of flat row-major position `lin` in `shape`.
pub fn unravel(lin: usize, shape: &[usize]) -> (idx: Vec<usize>)
    requires
        strides_fit(shape@),
        inner_axes_nonempty(shape@),
    ensures
        idx@.len() == shape@.len(),
        forall|k: int| 0 <= k < shape@.len() ==> idx@[k] == #[trigger] spec_unravel(lin as int, shape@)[k],
{
    let strides = row_major_strides(shape);
    let n = shape.len();
    let mut idx: Vec<usize> = Vec::new();
    let mut rem = lin;
    let mut k: usize = 0;
    while k < n
        invariant
            n == shape@.len(),
            strides@.len() == n,
            forall|i: int| 0 <= i < n ==> strides@[i] == stride_of(shape@, i),
            inner_axes_nonempty(shape@),
            0 <= k <= n,
            idx@.len() == k,
            k == 0 ==> rem == lin,
            k > 0 ==> rem == (lin as int) % stride_of(shape@, k - 1),
            forall|i: int| 0 <= i < k ==> idx@[i] == #[trigger] spec_unravel(lin as int, shape@)[i],
        decreases n - k,
    {
        proof {
            lemma_stride_positive(shape@, k as int);
        }
        let s = strides[k];
        idx.push(rem / s);
        proof {
            if k > 0 {
                lemma_stride_positive(shape@, k as int - 1);
                lemma_prod_step(shape@, k as int);
                // stride(k-1) == shape[k] * stride(k)
                vstd::arithmetic::div_mod::lemma_mod_mod(
                    lin as int,
                    stride_of(shape@, k as int),
                    shape@[k as int] as int,
                );
                vstd::arithmetic::mul::lemma_mul_is_commutative(
                    shape@[k as int] as int,
                    stride_of(shape@, k as int),
                );
            }
        }
        rem = rem % s;
        k = k + 1;
    }
    idx
}


/// An extent of 0 empties the shape.
pub proof fn lemma_prod_zero(s: Seq<usize>, i: int)
    requires
        0 <= i < s.len(),
        s[i] == 0,
    ensures
        prod(s) == 0,
    decreases s.len(),
{
    if i > 0 {
        lemma_prod_zero(s.drop_first(), i - 1);
    }
}

/// A shape with elements has no empty axis.
pub proof fn lemma_prod_pos_extents(s: Seq<usize>)
    requires
        prod(s) > 0,
    ensures
        forall|i: int| 0 <= i < s.len() ==> #[trigger] s[i] > 0,
{
    assert forall|i: int| 0 <= i < s.len() implies #[trigger] s[i] > 0 by {
        if s[i] == 0 {
            lemma_prod_zero(s, i);
        }
    }
}

/// With no empty axis, every suffix product is at most the whole product.
pub proof fn lemma_suffix_prod_le(s: Seq<usize>, i: int)
    requires
        0 <= i <= s.len(),
        forall|k: int| 0 <= k < s.len() ==> #[trigger] s[k] > 0,
    ensures
        prod(s.subrange(i, s.len() as int)) <= prod(s),
    decreases i,
{
    if i == 0 {
        assert(s.subrange(0, s.len() as int) =~= s);
    } else {
        lemma_suffix_prod_le(s, i - 1);
        lemma_prod_step(s, i - 1);
        let p = prod(s.subrange(i, s.len() as int));
        lemma_prod_nonneg(s.subrange(i, s.len() as int));
        let e = s[i - 1] as int;
        assert(p <= e * p) by (nonlinear_arith)
            requires
                e >= 1,
                p >= 0,
        ;
    }
}

/// A non-empty shape whose element count fits in `usize` has positive
/// extents and strides that fit.
pub proof fn lemma_fits_strides(s: Seq<usize>)
    requires
        0 < prod(s) <= usize::MAX,
    ensures
        strides_fit(s),
        inner_axes_nonempty(s),
        forall|i: int| 0 <= i < s.len() ==> #[trigger] s[i] > 0,
{
    lemma_prod_pos_extents(s);
    assert forall|i: int| 1 <= i <= s.len() implies #[trigger] prod(s.subrange(i, s.len() as int))
        <= usize::MAX by {
        lemma_suffix_prod_le(s, i);
    }
}

/// Every coordinate of an in-range position lies inside its axis.
pub proof fn lemma_unravel_bound(lin: int, s: Seq<usize>)
    requires
        0 <= lin < prod(s),
    ensures
        forall|k: int| 0 <= k < s.len() ==> 0 <= #[trigger] spec_unravel(lin, s)[k] < s[k],
{
    lemma_prod_pos_extents(s);
    assert(inner_axes_nonempty(s));
    assert forall|k: int| 0 <= k < s.len() implies 0 <= #[trigger] spec_unravel(lin, s)[k] < s[k] by {
        lemma_stride_positive(s, k);
        lemma_prod_step(s, k);
        let st = stride_of(s, k);
        vstd::arithmetic::mul::lemma_mul_is_commutative(s[k] as int, st);
        if k == 0 {
            assert(s.subrange(0, s.len() as int) =~= s);
            vstd::arithmetic::div_mod::lemma_div_pos_is_pos(lin, st);
            vstd::arithmetic::div_mod::lemma_multiply_divide_lt(lin, st, s[k] as int);
        } else {
            lemma_stride_positive(s, k - 1);
            let m = lin % stride_of(s, k - 1);
            assert(stride_of(s, k - 1) == prod(s.subrange(k, s.len() as int)));
            vstd::arithmetic::div_mod::lemma_mod_pos_bound(lin, stride_of(s, k - 1));
            vstd::arithmetic::div_mod::lemma_div_pos_is_pos(m, st);
            vstd::arithmetic::div_mod::lemma_multiply_divide_lt(m, st, s[k] as int);
        }
    }
}

/// Row-major flat position of the first `n` coordinates of `c` in `shape`:
/// the sum of `c[k] * stride_of(shape, k)` over `k < n`.
pub open spec fn ravel_upto(c: Seq<int>, shape: Seq<usize>, n: int) -> int
    decreases n,
{
    if n <= 0 {
        0
    } else {
        ravel_upto(c, shape, n - 1) + c[n - 1] * stride_of(shape, n - 1)
    }
}

/// Row-major flat position of multi-index `c` in `shape`.
pub open spec fn ravel(c: Seq<int>, shape: Seq<usize>) -> int {
    ravel_upto(c, shape, shape.len() as int)
}

/// Coordinates inside their axes give a position inside the shape: the
/// partial sums stay below what the remaining axes can still add.
pub proof fn lemma_ravel_bound(c: Seq<int>, s: Seq<usize>, n: int)
    requires
        0 <= n <= s.len(),
        forall|k: int| 0 <= k < n ==> 0 <= #[trigger] c[k] < s[k],
    ensures
        0 <= ravel_upto(c, s, n),
        ravel_upto(c, s, n) + prod(s.subrange(n, s.len() as int)) <= prod(s),
    decreases n,
{
    if n == 0 {
        assert(s.subrange(0, s.len() as int) =~= s);
    } else {
        lemma_ravel_bound(c, s, n - 1);
        lemma_prod_step(s, n - 1);
        let p = prod(s.subrange(n, s.len() as int));
        lemma_prod_nonneg(s.subrange(n, s.len() as int));
        let x = c[n - 1];
        let e = s[n - 1] as int;
        assert(x * p >= 0 && x * p + p <= e * p) by (nonlinear_arith)
            requires
                0 <= x < e,
                p >= 0,
        ;
    }
}

/// The terms of [`ravel`] from axis `k` on.
pub open spec fn ravel_from(c: Seq<int>, shape: Seq<usize>, k: int) -> int
    decreases shape.len() - k,
{
    if k >= shape.len() {
        0
    } else {
        c[k] * stride_of(shape, k) + ravel_from(c, shape, k + 1)
    }
}

proof fn lemma_ravel_split(c: Seq<int>, s: Seq<usize>, k: int)
    requires
        0 <= k <= s.len(),
    ensures
        ravel(c, s) == ravel_upto(c, s, k) + ravel_from(c, s, k),
    decreases s.len() - k,
{
    if k < s.len() {
        lemma_ravel_split(c, s, k + 1);
    }
}

proof fn lemma_ravel_from_bound(c: Seq<int>, s: Seq<usize>, k: int)
    requires
        0 <= k <= s.len(),
        forall|j: int| 0 <= j < s.len() ==> 0 <= #[trigger] c[j] < s[j],
    ensures
        0 <= ravel_from(c, s, k) < prod(s.subrange(k, s.len() as int)),
    decreases s.len() - k,
{
    if k == s.len() {
        assert(s.subrange(k, s.len() as int) =~= Seq::<usize>::empty());
    } else {
        lemma_ravel_from_bound(c, s, k + 1);
        lemma_prod_step(s, k);
        let p = prod(s.subrange(k + 1, s.len() as int));
        let x = c[k];
        let e = s[k] as int;
        let r = ravel_from(c, s, k + 1);
        assert(0 <= x * p + r < e * p) by (nonlinear_arith)
            requires
                0 <= x < e,
                0 <= r < p,
        ;
    }
}

/// A later suffix product divides an earlier one.
proof fn lemma_suffix_divides(s: Seq<usize>, i: int, k: int) -> (q: int)
    requires
        0 <= i <= k <= s.len(),
    ensures
        q >= 0,
        prod(s.subrange(i, s.len() as int)) == q * prod(s.subrange(k, s.len() as int)),
    decreases k - i,
{
    if i == k {
        1
    } else {
        let q0 = lemma_suffix_divides(s, i + 1, k);
        lemma_prod_step(s, i);
        let e = s[i] as int;
        let p = prod(s.subrange(k, s.len() as int));
        assert(e * (q0 * p) == (e * q0) * p) by (nonlinear_arith);
        assert(e * q0 >= 0) by (nonlinear_arith)
            requires
                e >= 0,
                q0 >= 0,
        ;
        e * q0
    }
}

/// The terms of [`ravel`] before axis `k` add up to a multiple of the
/// product of the axes from `k` on.
proof fn lemma_ravel_upto_multiple(c: Seq<int>, s: Seq<usize>, k: int) -> (q: int)
    requires
        0 <= k <= s.len(),
    ensures
        ravel_upto(c, s, k) == q * prod(s.subrange(k, s.len() as int)),
    decreases k,
{
    if k == 0 {
        0
    } else {
        let q0 = lemma_ravel_upto_multiple(c, s, k - 1);
        lemma_prod_step(s, k - 1);
        let p = prod(s.subrange(k, s.len() as int));
        let e = s[k - 1] as int;
        // ravel_upto(k) = q0 * (e * p) + c[k-1] * p
        assert(stride_of(s, k - 1) == p);
        assert(q0 * (e * p) + c[k - 1] * p == (q0 * e + c[k - 1]) * p) by (nonlinear_arith);
        q0 * e + c[k - 1]
    }
}

/// Unravelling the position of an in-range multi-index gives it back.
pub proof fn lemma_unravel_ravel(c: Seq<int>, s: Seq<usize>)
    requires
        c.len() == s.len(),
        forall|j: int| 0 <= j < s.len() ==> 0 <= #[trigger] c[j] < s[j],
    ensures
        spec_unravel(ravel(c, s), s) == c,
{
    let r = ravel(c, s);
    assert forall|k: int| 0 <= k < s.len() implies #[trigger] spec_unravel(r, s)[k] == c[k] by {
        assert(0 <= c[k] < s[k]);
        lemma_ravel_from_bound(c, s, k + 1);
        let st = stride_of(s, k);
        assert(st == prod(s.subrange(k + 1, s.len() as int)));
        let rest = ravel_from(c, s, k + 1);
        assert(ravel_from(c, s, k) == c[k] * st + rest);
        if k == 0 {
            lemma_ravel_split(c, s, 0);
            vstd::arithmetic::div_mod::lemma_fundamental_div_mod_converse(r, st, c[k], rest);
        } else {
            lemma_ravel_split(c, s, k);
            let q = lemma_ravel_upto_multiple(c, s, k);
            lemma_ravel_from_bound(c, s, k);
            let pk = prod(s.subrange(k, s.len() as int));
            assert(stride_of(s, k - 1) == pk);
            vstd::arithmetic::div_mod::lemma_fundamental_div_mod_converse(r, pk, q, ravel_from(c, s, k));
            vstd::arithmetic::div_mod::lemma_fundamental_div_mod_converse(ravel_from(c, s, k), st, c[k], rest);
        }
    }
    assert(spec_unravel(r, s) =~= c);
}

/// The multi-index of an in-range position ravels back to that position.
pub proof fn lemma_ravel_unravel(lin: int, s: Seq<usize>)
    requires
        0 <= lin < prod(s),
    ensures
        ravel(spec_unravel(lin, s), s) == lin,
{
    let u = spec_unravel(lin, s);
    lemma_prod_pos_extents(s);
    assert(inner_axes_nonempty(s));
    lemma_ravel_split(u, s, 0);
    lemma_ravel_from_unravel(lin, s, 0);
}

proof fn lemma_ravel_from_unravel(lin: int, s: Seq<usize>, k: int)
    requires
        0 <= lin < prod(s),
        0 <= k <= s.len(),
        forall|i: int| 0 <= i < s.len() ==> #[trigger] s[i] > 0,
    ensures
        ravel_from(spec_unravel(lin, s), s, k) == (if k == 0 {
            lin
        } else {
            lin % stride_of(s, k - 1)
        }),
    decreases s.len() - k,
{
    let u = spec_unravel(lin, s);
    assert(inner_axes_nonempty(s));
    if k == s.len() {
        if k > 0 {
            assert(s.subrange(k, s.len() as int) =~= Seq::<usize>::empty());
            assert(stride_of(s, k - 1) == 1);
            vstd::arithmetic::div_mod::lemma_mod_self_0(1);
            vstd::arithmetic::div_mod::lemma_small_mod(0, 1);
            vstd::arithmetic::div_mod::lemma_fundamental_div_mod(lin, 1);
            vstd::arithmetic::div_mod::lemma_mod_pos_bound(lin, 1);
        } else {
            assert(s.len() == 0);
            assert(s =~= Seq::<usize>::empty());
            assert(prod(s) == 1);
        }
    } else {
        lemma_ravel_from_unravel(lin, s, k + 1);
        lemma_stride_positive(s, k);
        let st = stride_of(s, k);
        if k == 0 {
            vstd::arithmetic::div_mod::lemma_fundamental_div_mod(lin, st);
            vstd::arithmetic::mul::lemma_mul_is_commutative(st, lin / st);
        } else {
            lemma_stride_positive(s, k - 1);
            lemma_prod_step(s, k);
            let sk = s[k] as int;
            let prev = stride_of(s, k - 1);
            assert(prev == sk * st);
            let m = lin % prev;
            vstd::arithmetic::mul::lemma_mul_is_commutative(sk, st);
            vstd::arithmetic::div_mod::lemma_mod_mod(lin, st, sk);
            vstd::arithmetic::div_mod::lemma_fundamental_div_mod(m, st);
            vstd::arithmetic::mul::lemma_mul_is_commutative(st, m / st);
        }
    }
}

/// Element count of `shape`, when it fits in `usize`.
pub fn shape_size(shape: &[usize]) -> (r: Option<usize>)
    ensures
        r == (if prod(shape@) <= usize::MAX {
            Some(prod(shape@) as usize)
        } else {
            None
        }),
{
    let n = shape.len();
    let mut z: usize = 0;
    while z < n
        invariant
            n == shape@.len(),
            0 <= z <= n,
            forall|k: int| 0 <= k < z ==> #[trigger] shape@[k] > 0,
        decreases n - z,
    {
        if shape[z] == 0 {
            proof {
                lemma_prod_zero(shape@, z as int);
            }
            return Some(0);
        }
        z = z + 1;
    }
    let mut acc: usize = 1;
    let mut i: usize = n;
    assert(shape@.subrange(n as int, n as int) =~= Seq::<usize>::empty());
    while i > 0
        invariant
            n == shape@.len(),
            0 <= i <= n,
            forall|k: int| 0 <= k < n ==> #[trigger] shape@[k] > 0,
            acc == prod(shape@.subrange(i as int, n as int)),
        decreases i,
    {
        proof {
            lemma_prod_step(shape@, i - 1);
            lemma_suffix_prod_le(shape@, i - 1);
        }
        match acc.checked_mul(shape[i - 1]) {
            Some(v) => {
                proof {
                    vstd::arithmetic::mul::lemma_mul_is_commutative(acc as int, shape@[i - 1] as int);
                }
                acc = v;
            },
            None => {
                proof {
                    vstd::arithmetic::mul::lemma_mul_is_commutative(acc as int, shape@[i - 1] as int);
                }
                return None;
            },
        }
        i = i - 1;
    }
    assert(shape@.subrange(0, n as int) =~= shape@);
    Some(acc)
}

/// Element-wise equality of two shapes.
pub fn usize_vec_eq(a: &Vec<usize>, b: &Vec<usize>) -> (r: bool)
    ensures
        r == (a@ == b@),
{
    if a.len() != b.len() {
        return false;
    }
    let mut i: usize = 0;
    while i < a.len()
        invariant
            a@.len() == b@.len(),
            0 <= i <= a@.len(),
            forall|j: int| 0 <= j < i ==> a@[j] == b@[j],
        decreases a@.len() - i,
    {
        if a[i] != b[i] {
            return false;
        }
        i = i + 1;
    }
    assert(a@ =~= b@);
    true
}

} // verus!
