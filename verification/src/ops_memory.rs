//! The memory load/store data path: row-major contiguity, index-space
//! enumeration, flat element offsets and the count of distinct HBM sticks an
//! access touches; the per-dtype byte codec; and the loads and stores that
//! move tiles between HBM / LX and the executing core.

use vstd::prelude::*;
use crate::dtypes::{DType, spec_bytes_per_elem};
use crate::env::{FloatArith, widen_gives, round_i64_gives, int_f32_gives};
use crate::context::CoreContext;
use crate::memory::{Allocs, STICK_BYTES, allocs_wf, spec_read, spec_write, stick_round_up};
use crate::ir::Tile;
use crate::shape::{shape_size, lemma_prod_zero, prod, stride_of, strides_fit, inner_axes_nonempty, spec_unravel, lemma_prod_step, lemma_prod_nonneg, lemma_prod_positive, row_major_strides, unravel};

verus! {

/// Product of the last `k` extents of `shape`.
pub open spec fn rev_prod(shape: Seq<usize>, k: int) -> int {
    prod(shape.subrange(shape.len() - k, shape.len() as int))
}

/// Number of axes the contiguity check compares (`zip` of the reversed lists).
pub open spec fn shared_rank(a: int, b: int) -> int {
    if a <= b { a } else { b }
}

/// The `k`-th stride from the end equals the product of the `k` innermost extents.
pub open spec fn stride_matches(shape: Seq<usize>, strides: Seq<i64>, k: int) -> bool {
    strides[strides.len() - 1 - k] == rev_prod(shape, k)
}

/// Row-major C-order layout on every axis the two lists share (counting from
/// the innermost).
pub open spec fn spec_is_contiguous(shape: Seq<usize>, strides: Seq<i64>) -> bool {
    forall|k: int| 0 <= k < shared_rank(shape.len() as int, strides.len() as int)
        ==> #[trigger] stride_matches(shape, strides, k)
}

/// The running extent product never overflows while strides keep matching.
pub open spec fn contiguity_check_fits(shape: Seq<usize>, strides: Seq<i64>) -> bool {
    forall|k: int|
        0 <= k < shared_rank(shape.len() as int, strides.len() as int) && (forall|j: int|
            0 <= j <= k ==> #[trigger] stride_matches(shape, strides, j)) ==> #[trigger] rev_prod(shape, k + 1)
            <= i64::MAX
}

proof fn lemma_rev_prod_step(shape: Seq<usize>, k: int)
    requires
        0 <= k < shape.len(),
    ensures
        rev_prod(shape, k + 1) == shape[shape.len() - 1 - k] * rev_prod(shape, k),
{
    lemma_prod_step(shape, shape.len() - 1 - k);
}

/// Row-major C-order check of `strides` against `shape`, innermost first.
pub fn is_contiguous(shape: &[usize], strides: &[i64]) -> (r: bool)
    requires
        contiguity_check_fits(shape@, strides@),
    ensures
        r == spec_is_contiguous(shape@, strides@),
{
    let n = if shape.len() <= strides.len() { shape.len() } else { strides.len() };
    let mut expected: i64 = 1;
    let mut k: usize = 0;
    assert(shape@.subrange(shape@.len() as int, shape@.len() as int) =~= Seq::<usize>::empty());
    while k < n
        invariant
            n == shared_rank(shape@.len() as int, strides@.len() as int),
            contiguity_check_fits(shape@, strides@),
            0 <= k <= n,
            expected == rev_prod(shape@, k as int),
            forall|j: int| 0 <= j < k ==> #[trigger] stride_matches(shape@, strides@, j),
        decreases n - k,
    {
        let dim = shape[shape.len() - 1 - k];
        let stride = strides[strides.len() - 1 - k];
        if stride != expected {
            assert(!stride_matches(shape@, strides@, k as int));
            return false;
        }
        proof {
            assert(stride_matches(shape@, strides@, k as int));
            lemma_rev_prod_step(shape@, k as int);
            assert(rev_prod(shape@, k + 1) <= i64::MAX);
            lemma_prod_nonneg(shape@.subrange(shape@.len() - k, shape@.len() as int));
            vstd::arithmetic::mul::lemma_mul_is_commutative(dim as int, expected as int);
            assert(expected as int * dim as int <= i64::MAX);
            if expected > 0 {
                assert(dim as int <= expected as int * dim as int) by (nonlinear_arith)
                    requires
                        expected >= 1,
                        dim >= 0,
                ;
            }
        }
        let next: i64 = if expected == 0 { 0 } else { expected * (dim as i64) };
        proof {
            if expected == 0 {
                assert(dim as int * expected as int == 0) by (nonlinear_arith)
                    requires
                        expected == 0,
                ;
            }
            assert(next == dim as int * expected as int);
            assert(rev_prod(shape@, k + 1) == dim as int * expected as int);
        }
        expected = next;
        k = k + 1;
    }
    true
}

/// The points `ndindex` enumerates: every multi-index of `shape` in row-major
/// order (one empty point for a rank-0 shape, none if an extent is 0).
pub open spec fn spec_ndindex(shape: Seq<usize>) -> Seq<Seq<int>> {
    Seq::new(prod(shape) as nat, |k: int| spec_unravel(k, shape))
}

proof fn lemma_unravel_le(lin: int, shape: Seq<usize>, k: int)
    requires
        inner_axes_nonempty(shape),
        0 <= k < shape.len(),
        lin >= 0,
    ensures
        0 <= spec_unravel(lin, shape)[k] <= lin,
{
    let t = |i: int| shape.subrange(i + 1, shape.len() as int);
    assert forall|i: int| 0 <= i < shape.len() implies stride_of(shape, i) > 0 by {
        let u = shape.subrange(i + 1, shape.len() as int);
        assert forall|j: int| 0 <= j < u.len() implies #[trigger] u[j] > 0 by {
            assert(u[j] == shape[i + 1 + j]);
        }
        lemma_prod_positive(u);
    }
    if k == 0 {
        vstd::arithmetic::div_mod::lemma_div_pos_is_pos(lin, stride_of(shape, 0));
        vstd::arithmetic::div_mod::lemma_div_is_ordered_by_denominator(lin, 1, stride_of(shape, 0));
    } else {
        let m = lin % stride_of(shape, k - 1);
        vstd::arithmetic::div_mod::lemma_mod_pos_bound(lin, stride_of(shape, k - 1));
        vstd::arithmetic::div_mod::lemma_mod_is_mod_recursive(lin, stride_of(shape, k - 1));
        assert(m <= lin) by {
            vstd::arithmetic::div_mod::lemma_fundamental_div_mod(lin, stride_of(shape, k - 1));
            vstd::arithmetic::div_mod::lemma_div_pos_is_pos(lin, stride_of(shape, k - 1));
            vstd::arithmetic::mul::lemma_mul_nonnegative(stride_of(shape, k - 1), lin / stride_of(shape, k - 1));
        }
        vstd::arithmetic::div_mod::lemma_div_pos_is_pos(m, stride_of(shape, k));
        vstd::arithmetic::div_mod::lemma_div_is_ordered_by_denominator(m, 1, stride_of(shape, k));
    }
}

/// Enumerate the index space of `shape` in row-major order, rightmost axis
/// innermost.
pub fn ndindex(shape: &[usize]) -> (points: Vec<Vec<i64>>)
    requires
        strides_fit(shape@),
        prod(shape@) <= i64::MAX,
        prod(shape@) <= usize::MAX,
    ensures
        points@.len() == spec_ndindex(shape@).len(),
        forall|p: int| 0 <= p < points@.len() ==> (#[trigger] points@[p])@.len() == shape@.len(),
        forall|p: int, d: int| 0 <= p < points@.len() && 0 <= d < shape@.len()
            ==> #[trigger] points@[p]@[d] == spec_ndindex(shape@)[p][d],
{
    let n = shape.len();
    let mut points: Vec<Vec<i64>> = Vec::new();
    let mut d: usize = 0;
    while d < n
        invariant
            0 <= d <= n,
            n == shape@.len(),
            points@.len() == 0,
            forall|j: int| 0 <= j < d ==> #[trigger] shape@[j] > 0,
        decreases n - d,
    {
        if shape[d] == 0 {
            proof {
                lemma_prod_zero(shape@, d as int);
            }
            return points;
        }
        d = d + 1;
    }
    assert(inner_axes_nonempty(shape@));
    proof {
        lemma_prod_nonneg(shape@);
        assert(prod(shape@) == prod(shape@.subrange(0, n as int))) by {
            assert(shape@.subrange(0, n as int) =~= shape@);
        }
    }
    let total: usize = if n == 0 {
        1
    } else {
        proof {
            assert(shape@.subrange(0, n as int) =~= shape@);
            lemma_prod_step(shape@, 0);
            assert(prod(shape@.subrange(1, n as int)) <= usize::MAX);
            assert(prod(shape@) <= usize::MAX);
        }
        let strides = row_major_strides(shape);
        proof {
            lemma_prod_step(shape@, 0);
            vstd::arithmetic::mul::lemma_mul_is_commutative(shape@[0] as int, stride_of(shape@, 0));
        }
        strides[0] * shape[0]
    };
    proof {
        if n == 0 {
            assert(shape@ =~= Seq::<usize>::empty());
        }
    }
    let mut k: usize = 0;
    while k < total
        invariant
            0 <= k <= total,
            total == prod(shape@),
            prod(shape@) <= i64::MAX,
            n == shape@.len(),
            strides_fit(shape@),
            inner_axes_nonempty(shape@),
            points@.len() == k,
            forall|p: int| 0 <= p < k ==> (#[trigger] points@[p])@.len() == n,
            forall|p: int, j: int| 0 <= p < k && 0 <= j < n
                ==> #[trigger] points@[p]@[j] == spec_unravel(p, shape@)[j],
        decreases total - k,
    {
        let idx = unravel(k, shape);
        let mut pt: Vec<i64> = Vec::new();
        let mut j: usize = 0;
        while j < n
            invariant
                0 <= j <= n,
                n == shape@.len(),
                idx@.len() == n,
                k < total,
                total <= i64::MAX,
                inner_axes_nonempty(shape@),
                forall|q: int| 0 <= q < n ==> idx@[q] == #[trigger] spec_unravel(k as int, shape@)[q],
                pt@.len() == j,
                forall|q: int| 0 <= q < j ==> pt@[q] == #[trigger] spec_unravel(k as int, shape@)[q],
            decreases n - j,
        {
            proof {
                lemma_unravel_le(k as int, shape@, j as int);
            }
            pt.push(idx[j] as i64);
            j = j + 1;
        }
        points.push(pt);
        k = k + 1;
    }
    points
}


/// The coordinate list as plain sequences.
pub open spec fn coords_view(coords: Option<&[Vec<i64>]>) -> Option<Seq<Seq<int>>> {
    match coords {
        Some(cs) => Some(
            Seq::new(cs@.len(), |i: int| Seq::new(cs@[i]@.len(), |j: int| cs@[i]@[j] as int)),
        ),
        None => None,
    }
}

/// The points an access visits: the explicit coordinates if given, else the
/// whole index space of `shape`.
pub open spec fn spec_points(shape: Seq<usize>, coords: Option<Seq<Seq<int>>>) -> Seq<Seq<int>> {
    match coords {
        Some(cs) => cs,
        None => spec_ndindex(shape),
    }
}

/// `sum_{i<k} c[i] * s[i]`.
pub open spec fn dot(c: Seq<int>, s: Seq<i64>, k: int) -> int
    decreases k,
{
    if k <= 0 {
        0
    } else {
        dot(c, s, k - 1) + c[k - 1] * s[k - 1]
    }
}

/// Flat element offset of point `c`: its dot product with the strides over the
/// axes both have.
pub open spec fn spec_offset(c: Seq<int>, s: Seq<i64>) -> int {
    dot(c, s, shared_rank(c.len() as int, s.len() as int))
}

/// Every product and partial sum of the offset computation fits in `i64`.
pub open spec fn offset_fits(c: Seq<int>, s: Seq<i64>) -> bool {
    forall|k: int| 1 <= k <= shared_rank(c.len() as int, s.len() as int) ==> fits(c[k - 1] * s[k - 1])
        && #[trigger] fits(dot(c, s, k))
}

pub open spec fn fits(v: int) -> bool {
    i64::MIN <= v <= i64::MAX
}

/// Rust's integer division (rounds toward zero).
pub open spec fn trunc_div(x: int, d: int) -> int {
    if x == 0 {
        0
    } else if x > 0 && d > 0 {
        x / d
    } else if x < 0 && d < 0 {
        (x * -1) / (d * -1)
    } else if x < 0 {
        ((x * -1) / d) * -1
    } else {
        (x / (d * -1)) * -1
    }
}

/// Stick holding the element at flat offset `o`.
pub open spec fn stick_of(base_ptr: i64, bpe: int, sb: i64, o: int) -> int {
    trunc_div(base_ptr + o * bpe, sb as int)
}

/// The stick computation for offset `o` cannot overflow or divide by zero.
pub open spec fn stick_fits(base_ptr: i64, bpe: int, sb: i64, o: int) -> bool {
    &&& fits(o * bpe)
    &&& fits(base_ptr + o * bpe)
    &&& sb != 0
    &&& fits(trunc_div(base_ptr + o * bpe, sb as int))
}

/// Flat offsets of all points.
pub open spec fn spec_offsets(pts: Seq<Seq<int>>, strides: Seq<i64>) -> Seq<int> {
    Seq::new(pts.len(), |i: int| spec_offset(pts[i], strides))
}

/// Number of distinct sticks the offsets touch.
pub open spec fn spec_unique_sticks(offsets: Seq<int>, base_ptr: i64, bpe: int, sb: i64) -> nat {
    offsets.map_values(|o: int| stick_of(base_ptr, bpe, sb, o)).to_set().len()
}

fn offset_of(c: &Vec<i64>, strides: &[i64]) -> (o: i64)
    requires
        offset_fits(Seq::new(c@.len(), |j: int| c@[j] as int), strides@),
    ensures
        o == spec_offset(Seq::new(c@.len(), |j: int| c@[j] as int), strides@),
{
    let ghost ci = Seq::new(c@.len(), |j: int| c@[j] as int);
    let n = if c.len() <= strides.len() { c.len() } else { strides.len() };
    let mut acc: i64 = 0;
    let mut k: usize = 0;
    while k < n
        invariant
            n == shared_rank(ci.len() as int, strides@.len() as int),
            ci == Seq::new(c@.len(), |j: int| c@[j] as int),
            offset_fits(ci, strides@),
            0 <= k <= n,
            acc == dot(ci, strides@, k as int),
        decreases n - k,
    {
        assert(fits(dot(ci, strides@, k + 1)));
        let p = c[k] * strides[k];
        acc = acc + p;
        k = k + 1;
    }
    acc
}

/// Flat element offsets of the points (the explicit `coords`, or every index
/// of `shape` in row-major order), and, when `stick_bytes` is given, how many
/// distinct sticks of that size the accessed bytes fall in.
pub fn flat_memory_offsets(
    base_ptr: i64,
    shape: &[usize],
    strides: &[i64],
    dtype: DType,
    coords: Option<&[Vec<i64>]>,
    stick_bytes: Option<i64>,
) -> (r: (Vec<i64>, Option<usize>))
    requires
        coords is None ==> strides_fit(shape@) && prod(shape@) <= i64::MAX && prod(shape@) <= usize::MAX,
        forall|i: int| 0 <= i < spec_points(shape@, coords_view(coords)).len()
            ==> offset_fits(#[trigger] spec_points(shape@, coords_view(coords))[i], strides@),
        stick_bytes matches Some(sb) ==> forall|i: int|
            0 <= i < spec_points(shape@, coords_view(coords)).len() ==> stick_fits(
                base_ptr,
                spec_bytes_per_elem(dtype) as int,
                sb,
                spec_offset(#[trigger] spec_points(shape@, coords_view(coords))[i], strides@),
            ),
    ensures
        r.0@.len() == spec_points(shape@, coords_view(coords)).len(),
        forall|i: int| 0 <= i < r.0@.len() ==> r.0@[i] == #[trigger] spec_offsets(
            spec_points(shape@, coords_view(coords)),
            strides@,
        )[i],
        stick_bytes is None ==> r.1 is None,
        stick_bytes matches Some(sb) ==> r.1 == Some(
            spec_unique_sticks(
                spec_offsets(spec_points(shape@, coords_view(coords)), strides@),
                base_ptr,
                spec_bytes_per_elem(dtype) as int,
                sb,
            ) as usize,
        ),
{
    let ghost pts = spec_points(shape@, coords_view(coords));
    let owned: Vec<Vec<i64>>;
    let pts_exec: &[Vec<i64>] = match coords {
        Some(cs) => cs,
        None => {
            owned = ndindex(shape);
            owned.as_slice()
        },
    };
    proof {
        assert(pts_exec@.len() == pts.len());
        assert forall|i: int| 0 <= i < pts.len() implies #[trigger] pts[i] == Seq::new(
            pts_exec@[i]@.len(),
            |j: int| pts_exec@[i]@[j] as int,
        ) by {
            if coords is None {
                assert(pts[i] =~= Seq::new(pts_exec@[i]@.len(), |j: int| pts_exec@[i]@[j] as int));
            }
        }
    }
    let bpe = dtype.bytes_per_elem() as i64;
    let mut offsets: Vec<i64> = Vec::new();
    let mut distinct: Vec<i64> = Vec::new();
    let ghost sids = spec_offsets(pts, strides@).map_values(
        |o: int| stick_of(base_ptr, bpe as int, stick_bytes->0, o),
    );
    let n = pts_exec.len();
    let mut i: usize = 0;
    while i < n
        invariant
            n == pts.len(),
            pts_exec@.len() == n,
            bpe == spec_bytes_per_elem(dtype),
            forall|k: int| 0 <= k < pts.len() ==> #[trigger] pts[k] == Seq::new(
                pts_exec@[k]@.len(),
                |j: int| pts_exec@[k]@[j] as int,
            ),
            forall|k: int| 0 <= k < pts.len() ==> offset_fits(#[trigger] pts[k], strides@),
            stick_bytes matches Some(sb) ==> forall|k: int| 0 <= k < pts.len() ==> stick_fits(
                base_ptr,
                bpe as int,
                sb,
                spec_offset(#[trigger] pts[k], strides@),
            ),
            sids == spec_offsets(pts, strides@).map_values(
                |o: int| stick_of(base_ptr, bpe as int, stick_bytes->0, o),
            ),
            0 <= i <= n,
            offsets@.len() == i,
            forall|k: int| 0 <= k < i ==> offsets@[k] == #[trigger] spec_offsets(pts, strides@)[k],
            distinct@.no_duplicates(),
            stick_bytes is Some ==> distinct@.map_values(|x: i64| x as int).to_set() == sids.take(i as int).to_set(),
        decreases n - i,
    {
        assert(offset_fits(pts[i as int], strides@));
        assert(pts[i as int] == Seq::new(pts_exec@[i as int]@.len(), |j: int| pts_exec@[i as int]@[j] as int));
        let o = offset_of(&pts_exec[i], strides);
        offsets.push(o);
        if let Some(sb) = stick_bytes {
            assert(stick_fits(base_ptr, bpe as int, sb, spec_offset(pts[i as int], strides@)));
            let addr = base_ptr + o * bpe;
            let sid = addr.checked_div(sb).unwrap();
            assert(sid == sids[i as int]);
            let mut found = false;
            let mut j: usize = 0;
            while j < distinct.len()
                invariant
                    0 <= j <= distinct@.len(),
                    found == exists|q: int| 0 <= q < j && distinct@[q] == sid,
                decreases distinct@.len() - j,
            {
                if distinct[j] == sid {
                    found = true;
                }
                j = j + 1;
            }
            let ghost old_d = distinct@;
            if !found {
                distinct.push(sid);
            }
            proof {
                assert(sids.take(i + 1) =~= sids.take(i as int).push(sids[i as int]));
                let dm0 = old_d.map_values(|x: i64| x as int);
                let dm1 = distinct@.map_values(|x: i64| x as int);
                let t0 = sids.take(i as int);
                let t1 = sids.take(i + 1);
                assert(dm0.to_set() == t0.to_set());
                assert forall|x: int| dm1.to_set().contains(x) <==> t1.to_set().contains(x) by {
                    assert(dm0.to_set().contains(x) <==> dm0.contains(x));
                    assert(t0.to_set().contains(x) <==> t0.contains(x));
                    if t1.contains(x) {
                        let q = choose|q: int| 0 <= q < t1.len() && t1[q] == x;
                        if q < i {
                            assert(t0[q] == x);
                            assert(t0.contains(x));
                            assert(dm0.contains(x));
                            let r = choose|r: int| 0 <= r < dm0.len() && dm0[r] == x;
                            assert(dm1[r] == x);
                        } else {
                            assert(x == sid as int);
                            if found {
                                let r = choose|r: int| 0 <= r < old_d.len() && old_d[r] == sid;
                                assert(dm1[r] == x);
                            } else {
                                assert(dm1[old_d.len() as int] == x);
                            }
                        }
                    }
                    if dm1.contains(x) {
                        let r = choose|r: int| 0 <= r < dm1.len() && dm1[r] == x;
                        if r < old_d.len() {
                            assert(dm0[r] == x);
                            assert(dm0.contains(x));
                            assert(t0.contains(x));
                            let q = choose|q: int| 0 <= q < t0.len() && t0[q] == x;
                            assert(t1[q] == x);
                        } else {
                            assert(x == sid as int);
                            assert(t1[i as int] == x);
                        }
                    }
                }
                assert(dm1.to_set() =~= t1.to_set());
                if !found {
                    assert forall|a: int, b: int| 0 <= a < b < distinct@.len() implies distinct@[a] != distinct@[b] by {
                        if b == old_d.len() {
                            assert(old_d[a] != sid);
                        }
                    }
                }
            }
        }
        i = i + 1;
    }
    proof {
        assert(sids.take(n as int) =~= sids);
    }
    let sticks = match stick_bytes {
        Some(_) => {
            proof {
                distinct@.unique_seq_to_set();
                let dm = distinct@.map_values(|x: i64| x as int);
                assert(dm.no_duplicates()) by {
                    assert forall|a: int, b: int| 0 <= a < b < dm.len() implies dm[a] != dm[b] by {
                        assert(distinct@[a] != distinct@[b]);
                    }
                }
                dm.unique_seq_to_set();
                assert(spec_offsets(pts, strides@).map_values(|o: int| stick_of(base_ptr, bpe as int, stick_bytes->0, o)) == sids);
            }
            Some(distinct.len())
        },
        None => None,
    };
    (offsets, sticks)
}

// ---------------------------------------------------------------------------
// dtype <-> bytes
// ---------------------------------------------------------------------------

/// The `f32` bit pattern of `1.0`.
pub const ONE_F32_BITS: u32 = 0x3f800000;

/// Value of a little-endian byte string.
pub open spec fn le_value(b: Seq<u8>) -> nat
    decreases b.len(),
{
    if b.len() == 0 {
        0
    } else {
        b[0] as nat + 256 * le_value(b.drop_first())
    }
}

/// The four little-endian bytes of `x`.
pub open spec fn le4(x: u32) -> Seq<u8> {
    seq![(x % 256) as u8, ((x / 256) % 256) as u8, ((x / 65536) % 256) as u8, (x / 16777216) as u8]
}

/// `x` is not `±0.0` (NaN counts as nonzero, as `x != 0.0` has it).
pub open spec fn is_nonzero_f32(x: u32) -> bool {
    x % 0x80000000 != 0
}

/// `x` clamped to the `i32` range.
pub open spec fn clamp_i32(x: i64) -> i64 {
    if x < -2147483648 {
        -2147483648i64
    } else if x > 2147483647 {
        2147483647i64
    } else {
        x
    }
}

/// The two's-complement bits of an `i32`-range value.
pub open spec fn twos32(c: i64) -> u32 {
    if c < 0 {
        (c + 4294967296) as u32
    } else {
        c as u32
    }
}

/// The `i32` whose two's-complement bits are `u` (`u < 2^32`).
pub open spec fn signed32(u: int) -> i64 {
    if u >= 2147483648 {
        (u - 4294967296) as i64
    } else {
        u as i64
    }
}

/// The two's-complement bits of an `i64`.
pub open spec fn twos64(r: i64) -> u64 {
    if r < 0 {
        (r + 18446744073709551616) as u64
    } else {
        r as u64
    }
}

/// The `i64` whose two's-complement bits are `u` (`u < 2^64`).
pub open spec fn signed64(u: int) -> i64 {
    if u >= 9223372036854775808 {
        (u - 18446744073709551616) as i64
    } else {
        u as i64
    }
}

/// The half-precision pattern the memory path stores for the `f32` bit
/// pattern `x`, field by field: the sign kept; a NaN as the quiet NaN
/// `0x7e00`; an exponent too small for a half subnormal as zero; a half
/// subnormal as the significand (with its implicit bit) shifted into place
/// and rounded up when the first dropped bit is set; an exponent too large
/// (or infinity) as infinity; otherwise the rebiased exponent and the top
/// ten mantissa bits, rounded to nearest, ties to even, on the dropped
/// thirteen bits (the rounding increment added to the whole pattern).
pub open spec fn f16_narrow(x: u32) -> u16 {
    let sign: u16 = ((x >> 16u32) & 0x8000u32) as u16;
    let e: u32 = (x >> 23u32) & 0xffu32;
    let mant: u32 = x & 0x7f_ffffu32;
    if e == 0xff && mant != 0 {
        sign | 0x7e00u16
    } else if e <= 112 {
        if e < 102 {
            sign
        } else {
            let full: u32 = mant | 0x80_0000u32;
            let shift: u32 = (126 - e) as u32;
            sign | (((full >> shift) + ((full >> ((shift - 1) as u32)) & 1u32)) as u16)
        }
    } else if e >= 143 {
        sign | 0x7c00u16
    } else {
        let half: u16 = sign | (((((e - 112) as u32) << 10u32) | (mant >> 13u32)) as u16);
        if (mant & 0x1000u32) != 0 && ((mant & 0xfffu32) != 0 || (half & 1u16) == 1) {
            (half + 1) as u16
        } else {
            half
        }
    }
}

/// Narrow the `f32` bit pattern `x` to the half-precision pattern the memory
/// path stores (see [`f16_narrow`]).
pub fn narrow_f16_bits(x: u32) -> (h: u16)
    ensures
        h == f16_narrow(x),
{
    let sign: u16 = ((x >> 16u32) & 0x8000u32) as u16;
    let e: u32 = (x >> 23u32) & 0xffu32;
    let mant: u32 = x & 0x7f_ffffu32;
    assert(e <= 0xff) by (bit_vector)
        requires
            e == (x >> 23u32) & 0xffu32,
    ;
    assert(mant < 0x80_0000) by (bit_vector)
        requires
            mant == x & 0x7f_ffffu32,
    ;
    if e == 0xff && mant != 0 {
        sign | 0x7e00u16
    } else if e <= 112 {
        if e < 102 {
            sign
        } else {
            let full: u32 = mant | 0x80_0000u32;
            let shift: u32 = 126 - e;
            assert((full >> shift) + ((full >> ((shift - 1) as u32)) & 1u32) <= 0x401) by (bit_vector)
                requires
                    full == mant | 0x80_0000u32,
                    mant < 0x80_0000,
                    14 <= shift <= 24,
            ;
            sign | (((full >> shift) + ((full >> (shift - 1)) & 1u32)) as u16)
        }
    } else if e >= 143 {
        sign | 0x7c00u16
    } else {
        let half: u16 = sign | (((((e - 112) as u32) << 10u32) | (mant >> 13u32)) as u16);
        assert(half <= 0xfbff) by (bit_vector)
            requires
                sign == ((x >> 16u32) & 0x8000u32) as u16,
                half == sign | (((((e - 112) as u32) << 10u32) | (mant >> 13u32)) as u16),
                113 <= e <= 142,
                mant < 0x80_0000,
        ;
        if (mant & 0x1000u32) != 0 && ((mant & 0xfffu32) != 0 || (half & 1u16) == 1) {
            half + 1
        } else {
            half
        }
    }
}

/// The half-precision pattern per-op `f16` rounding gives the `f32` bit
/// pattern `x`: as [`f16_narrow`], but the exponent is checked for overflow
/// before underflow, a half subnormal is rounded to nearest, ties to even,
/// on all its dropped bits, and a normal value's rounding increment goes
/// into the mantissa field, which is then or-ed with the exponent field.
pub open spec fn f16_round(x: u32) -> u16 {
    let sign: u16 = ((x >> 16u32) & 0x8000u32) as u16;
    let e: u32 = (x >> 23u32) & 0xffu32;
    let mant: u32 = x & 0x7f_ffffu32;
    if e == 0xff && mant != 0 {
        sign | 0x7e00u16
    } else if e >= 143 {
        sign | 0x7c00u16
    } else if e <= 112 {
        if e < 102 {
            sign
        } else {
            let full: u32 = mant | 0x80_0000u32;
            let shift: u32 = (126 - e) as u32;
            let q: u32 = full >> shift;
            let rem: u32 = full & (((1u32 << shift) - 1) as u32);
            let halfway: u32 = 1u32 << ((shift - 1) as u32);
            let hm: u32 = if rem > halfway || (rem == halfway && (q & 1u32) == 1) {
                (q + 1) as u32
            } else {
                q
            };
            sign | (hm as u16)
        }
    } else {
        let q: u16 = (mant >> 13u32) as u16;
        let rem: u32 = mant & 0x1fffu32;
        let hm: u16 = if rem > 0x1000 || (rem == 0x1000 && (q & 1u16) == 1) {
            (q + 1) as u16
        } else {
            q
        };
        sign | ((((e - 112) as u32) << 10u32) as u16) | hm
    }
}

/// Round the `f32` bit pattern `x` to half precision as per-op `f16`
/// rounding does (see [`f16_round`]).
pub fn f32_to_f16_bits(x: u32) -> (h: u16)
    ensures
        h == f16_round(x),
{
    let sign: u16 = ((x >> 16u32) & 0x8000u32) as u16;
    let e: u32 = (x >> 23u32) & 0xffu32;
    let mant: u32 = x & 0x7f_ffffu32;
    assert(e <= 0xff) by (bit_vector)
        requires
            e == (x >> 23u32) & 0xffu32,
    ;
    assert(mant < 0x80_0000) by (bit_vector)
        requires
            mant == x & 0x7f_ffffu32,
    ;
    if e == 0xff && mant != 0 {
        sign | 0x7e00u16
    } else if e >= 143 {
        sign | 0x7c00u16
    } else if e <= 112 {
        if e < 102 {
            sign
        } else {
            let full: u32 = mant | 0x80_0000u32;
            let shift: u32 = 126 - e;
            let q: u32 = full >> shift;
            assert(q <= 0x3ff && (1u32 << shift) >= 1) by (bit_vector)
                requires
                    full == mant | 0x80_0000u32,
                    mant < 0x80_0000,
                    14 <= shift <= 24,
                    q == full >> shift,
            ;
            let rem: u32 = full & ((1u32 << shift) - 1);
            let halfway: u32 = 1u32 << (shift - 1);
            let hm: u32 = if rem > halfway || (rem == halfway && (q & 1u32) == 1) {
                q + 1
            } else {
                q
            };
            sign | (hm as u16)
        }
    } else {
        let q: u16 = (mant >> 13u32) as u16;
        assert(q <= 0x3ff) by (bit_vector)
            requires
                mant < 0x80_0000,
                q == (mant >> 13u32) as u16,
        ;
        let rem: u32 = mant & 0x1fffu32;
        let hm: u16 = if rem > 0x1000 || (rem == 0x1000 && (q & 1u16) == 1) {
            q + 1
        } else {
            q
        };
        sign | ((((e - 112) as u32) << 10u32) as u16) | hm
    }
}

/// `b0`, `b1` are the little-endian bytes of the half-precision pattern
/// `x` narrows to.
pub open spec fn f16_bytes_of(x: u32, b0: u8, b1: u8) -> bool {
    b0 == (f16_narrow(x) % 256) as u8 && b1 == (f16_narrow(x) / 256) as u8
}

/// `four` are the little-endian bytes of the `i32` the host rounds `x` to,
/// saturated to the `i32` range.
pub open spec fn i32_bytes_of<F: FloatArith>(floats: &F, x: u32, four: Seq<u8>) -> bool {
    exists|r: i64| #[trigger] round_i64_gives(floats, x, r) && four == le4(twos32(clamp_i32(r)))
}

/// `eight` are the little-endian bytes of the `i64` the host rounds `x` to.
pub open spec fn i64_bytes_of<F: FloatArith>(floats: &F, x: u32, eight: Seq<u8>) -> bool {
    exists|r: i64|
        #[trigger] round_i64_gives(floats, x, r) && eight == le4((twos64(r) % 4294967296) as u32) + le4(
            (twos64(r) / 4294967296) as u32,
        )
}

/// `out` holds the `n` elements of `dtype` decoded from `raw`: an element
/// whose bytes `raw` does not hold in full is `0.0`; an `f32` element is its
/// little-endian bit pattern; a `bool` byte is `1.0` when nonzero, else
/// `0.0`; a half-precision element is what the host widens its pattern to;
/// an integer element is what the host converts its two's-complement value
/// to.
pub open spec fn decoded<F: FloatArith>(floats: &F, raw: Seq<u8>, dtype: DType, n: nat, out: Seq<u32>) -> bool {
    &&& out.len() == n
    &&& forall|i: int|
        0 <= i < n ==> if (i + 1) * (spec_bytes_per_elem(dtype) as int) <= raw.len() {
            &&& (dtype == DType::F32 ==> #[trigger] out[i] == le_value(raw.subrange(4 * i, 4 * i + 4)))
            &&& (dtype == DType::Bool ==> out[i] == (if raw[i] != 0 {
                ONE_F32_BITS
            } else {
                0u32
            }))
            &&& (dtype == DType::F16 ==> widen_gives(floats, (raw[2 * i] + 256 * raw[2 * i + 1]) as u16, out[i]))
            &&& (dtype == DType::I32 ==> int_f32_gives(floats, signed32(le_value(raw.subrange(4 * i, 4 * i + 4)) as int), out[i]))
            &&& (dtype == DType::I64 ==> int_f32_gives(
                floats,
                signed64((le_value(raw.subrange(8 * i, 8 * i + 4)) + 4294967296 * le_value(raw.subrange(8 * i + 4, 8 * i + 8))) as int),
                out[i],
            ))
        } else {
            out[i] == 0
        }
}

/// `bytes` encodes `data` as `dtype`: `bytes_per_elem` bytes per element;
/// an `f32` element as its little-endian bit pattern; a `bool` element as 1
/// when nonzero, else 0; a half-precision element as the pattern the host
/// narrows it to; an integer element as the two's-complement bytes of what
/// the host rounds it to (saturated for `i32`).
pub open spec fn encoded<F: FloatArith>(floats: &F, data: Seq<u32>, dtype: DType, bytes: Seq<u8>) -> bool {
    &&& bytes.len() == data.len() * spec_bytes_per_elem(dtype)
    &&& dtype == DType::F32 ==> forall|i: int|
        0 <= i < data.len() ==> bytes.subrange(4 * i, 4 * i + 4) == le4(#[trigger] data[i])
    &&& dtype == DType::Bool ==> forall|i: int|
        0 <= i < data.len() ==> bytes[i] == (if is_nonzero_f32(#[trigger] data[i]) {
            1u8
        } else {
            0u8
        })
    &&& dtype == DType::F16 ==> forall|i: int|
        0 <= i < data.len() ==> f16_bytes_of(#[trigger] data[i], bytes[2 * i], bytes[2 * i + 1])
    &&& dtype == DType::I32 ==> forall|i: int|
        0 <= i < data.len() ==> i32_bytes_of(floats, #[trigger] data[i], bytes.subrange(4 * i, 4 * i + 4))
    &&& dtype == DType::I64 ==> forall|i: int|
        0 <= i < data.len() ==> i64_bytes_of(floats, #[trigger] data[i], bytes.subrange(8 * i, 8 * i + 8))
}

proof fn lemma_le_value4(b: Seq<u8>)
    requires
        b.len() == 4,
    ensures
        le_value(b) == b[0] + 256 * b[1] + 65536 * b[2] + 16777216 * b[3],
{
    let b1 = b.drop_first();
    let b2 = b1.drop_first();
    let b3 = b2.drop_first();
    let b4 = b3.drop_first();
    assert(b4.len() == 0);
    assert(le_value(b3) == b[3] + 256 * le_value(b4));
    assert(le_value(b2) == b[2] + 256 * le_value(b3));
    assert(le_value(b1) == b[1] + 256 * le_value(b2));
}

/// Reading back the four bytes of `x` gives `x`.
proof fn lemma_le4_value(x: u32)
    ensures
        le_value(le4(x)) == x,
{
    lemma_le_value4(le4(x));
    let xi = x as int;
    vstd::arithmetic::div_mod::lemma_fundamental_div_mod(xi, 256);
    vstd::arithmetic::div_mod::lemma_fundamental_div_mod(xi / 256, 256);
    vstd::arithmetic::div_mod::lemma_fundamental_div_mod(xi / 65536, 256);
    vstd::arithmetic::div_mod::lemma_div_denominator(xi, 256, 256);
    vstd::arithmetic::div_mod::lemma_div_denominator(xi, 65536, 256);
    assert(x / 16777216 < 256) by (nonlinear_arith);
}

fn push_le4(out: &mut Vec<u8>, x: u32)
    ensures
        final(out)@ == old(out)@ + le4(x),
{
    out.push((x % 256) as u8);
    out.push(((x / 256) % 256) as u8);
    out.push(((x / 65536) % 256) as u8);
    assert(x / 16777216 < 256) by (nonlinear_arith);
    out.push((x / 16777216) as u8);
    assert(final(out)@ =~= old(out)@ + le4(x));
}

/// Encode tile elements into `dtype`'s native little-endian layout.
pub fn encode<F: FloatArith>(data: &[u32], dtype: DType, floats: &F) -> (out: Vec<u8>)
    requires
        data@.len() * spec_bytes_per_elem(dtype) <= usize::MAX,
    ensures
        encoded(floats, data@, dtype, out@),
{
    let mut out: Vec<u8> = Vec::new();
    let n = data.len();
    let mut i: usize = 0;
    while i < n
        invariant
            0 <= i <= n,
            n == data@.len(),
            out@.len() == i * spec_bytes_per_elem(dtype),
            dtype == DType::F32 ==> forall|k: int|
                0 <= k < i ==> out@.subrange(4 * k, 4 * k + 4) == le4(#[trigger] data@[k]),
            dtype == DType::Bool ==> forall|k: int|
                0 <= k < i ==> out@[k] == (if is_nonzero_f32(#[trigger] data@[k]) {
                    1u8
                } else {
                    0u8
                }),
            dtype == DType::F16 ==> forall|k: int|
                0 <= k < i ==> f16_bytes_of(#[trigger] data@[k], out@[2 * k], out@[2 * k + 1]),
            dtype == DType::I32 ==> forall|k: int|
                0 <= k < i ==> i32_bytes_of(floats, #[trigger] data@[k], out@.subrange(4 * k, 4 * k + 4)),
            dtype == DType::I64 ==> forall|k: int|
                0 <= k < i ==> i64_bytes_of(floats, #[trigger] data@[k], out@.subrange(8 * k, 8 * k + 8)),
        decreases n - i,
    {
        let x = data[i];
        let ghost before = out@;
        match dtype {
            DType::F16 => {
                let h = narrow_f16_bits(x);
                out.push((h % 256) as u8);
                out.push((h / 256) as u8);
                proof {
                    assert forall|k: int| 0 <= k < i + 1 implies f16_bytes_of(#[trigger] data@[k], out@[2 * k], out@[2 * k + 1]) by {
                        if k < i {
                            assert(out@[2 * k] == before[2 * k] && out@[2 * k + 1] == before[2 * k + 1]);
                        }
                    }
                }
            },
            DType::F32 => {
                push_le4(&mut out, x);
                assert forall|k: int| 0 <= k < i + 1 implies out@.subrange(4 * k, 4 * k + 4) == le4(
                    #[trigger] data@[k],
                ) by {
                    if k < i {
                        assert(out@.subrange(4 * k, 4 * k + 4) =~= before.subrange(4 * k, 4 * k + 4));
                    } else {
                        assert(out@.subrange(4 * k, 4 * k + 4) =~= le4(x));
                    }
                }
            },
            DType::I32 => {
                let r = floats.round_to_i64(x);
                let c: i64 = if r < -2147483648 {
                    -2147483648
                } else if r > 2147483647 {
                    2147483647
                } else {
                    r
                };
                let u: u32 = if c < 0 {
                    (c + 4294967296) as u32
                } else {
                    c as u32
                };
                push_le4(&mut out, u);
                proof {
                    assert(u == twos32(clamp_i32(r)));
                    assert(round_i64_gives(floats, data@[i as int], r));
                    assert forall|k: int| 0 <= k < i + 1 implies i32_bytes_of(floats, #[trigger] data@[k], out@.subrange(4 * k, 4 * k + 4)) by {
                        if k < i {
                            assert(out@.subrange(4 * k, 4 * k + 4) =~= before.subrange(4 * k, 4 * k + 4));
                        } else {
                            assert(out@.subrange(4 * k, 4 * k + 4) =~= le4(u));
                        }
                    }
                }
            },
            DType::I64 => {
                let r = floats.round_to_i64(x);
                let u: u64 = if r < 0 {
                    (r as i128 + 18446744073709551616i128) as u64
                } else {
                    r as u64
                };
                push_le4(&mut out, (u % 4294967296) as u32);
                push_le4(&mut out, (u / 4294967296) as u32);
                proof {
                    assert(u == twos64(r));
                    assert(round_i64_gives(floats, data@[i as int], r));
                    assert forall|k: int| 0 <= k < i + 1 implies i64_bytes_of(floats, #[trigger] data@[k], out@.subrange(8 * k, 8 * k + 8)) by {
                        if k < i {
                            assert(out@.subrange(8 * k, 8 * k + 8) =~= before.subrange(8 * k, 8 * k + 8));
                        } else {
                            assert(out@.subrange(8 * k, 8 * k + 8) =~= le4((u % 4294967296) as u32) + le4((u / 4294967296) as u32));
                        }
                    }
                }
            },
            DType::Bool => {
                out.push(if x % 0x80000000 != 0 {
                    1u8
                } else {
                    0u8
                });
            },
        }
        proof {
            vstd::arithmetic::mul::lemma_mul_is_distributive_add_other_way(
                spec_bytes_per_elem(dtype) as int,
                i as int,
                1,
            );
        }
        i = i + 1;
    }
    out
}

fn read_le4(raw: &[u8], off: usize) -> (v: u32)
    requires
        off + 4 <= raw@.len(),
    ensures
        v == le_value(raw@.subrange(off as int, off + 4)),
{
    proof {
        lemma_le_value4(raw@.subrange(off as int, off + 4));
    }
    raw[off] as u32 + raw[off + 1] as u32 * 256 + raw[off + 2] as u32 * 65536 + raw[off + 3] as u32 * 16777216
}

/// Decode `n` elements of `dtype` from the front of `raw`; elements `raw`
/// does not hold in full decode as `0.0`.
pub fn decode<F: FloatArith>(raw: &[u8], dtype: DType, n: usize, floats: &F) -> (out: Vec<u32>)
    requires
        n * spec_bytes_per_elem(dtype) <= usize::MAX,
    ensures
        decoded(floats, raw@, dtype, n as nat, out@),
{
    let bpe = dtype.bytes_per_elem();
    let mut out: Vec<u32> = Vec::new();
    let mut i: usize = 0;
    while i < n
        invariant
            0 <= i <= n,
            n * spec_bytes_per_elem(dtype) <= usize::MAX,
            bpe == spec_bytes_per_elem(dtype),
            out@.len() == i,
            forall|k: int|
                0 <= k < i ==> if (k + 1) * (bpe as int) <= raw@.len() {
                    &&& (dtype == DType::F32 ==> #[trigger] out@[k] == le_value(raw@.subrange(4 * k, 4 * k + 4)))
                    &&& (dtype == DType::Bool ==> out@[k] == (if raw@[k] != 0 {
                        ONE_F32_BITS
                    } else {
                        0u32
                    }))
                    &&& (dtype == DType::F16 ==> widen_gives(floats, (raw@[2 * k] + 256 * raw@[2 * k + 1]) as u16, out@[k]))
                    &&& (dtype == DType::I32 ==> int_f32_gives(
                        floats,
                        signed32(le_value(raw@.subrange(4 * k, 4 * k + 4)) as int),
                        out@[k],
                    ))
                    &&& (dtype == DType::I64 ==> int_f32_gives(
                        floats,
                        signed64((le_value(raw@.subrange(8 * k, 8 * k + 4)) + 4294967296 * le_value(
                            raw@.subrange(8 * k + 4, 8 * k + 8),
                        )) as int),
                        out@[k],
                    ))
                } else {
                    out@[k] == 0
                },
        decreases n - i,
    {
        proof {
            vstd::arithmetic::mul::lemma_mul_inequality(i + 1, n as int, bpe as int);
            vstd::arithmetic::mul::lemma_mul_is_distributive_add_other_way(bpe as int, i as int, 1);
        }
        let off = i * bpe;
        let present = off + bpe <= raw.len();
        let v: u32 = if !present {
            0
        } else {
            match dtype {
                DType::F16 => {
                    let h: u16 = raw[off] as u16 + raw[off + 1] as u16 * 256;
                    floats.widen_f16(h)
                },
                DType::F32 => read_le4(raw, off),
                DType::I32 => {
                    let u = read_le4(raw, off);
                    let s: i64 = if u >= 2147483648 {
                        u as i64 - 4294967296
                    } else {
                        u as i64
                    };
                    floats.int_to_f32(s)
                },
                DType::I64 => {
                    let lo = read_le4(raw, off) as u64;
                    let hi = read_le4(raw, off + 4) as u64;
                    let u: u64 = lo + hi * 4294967296;
                    let s: i64 = if u >= 9223372036854775808 {
                        (u as i128 - 18446744073709551616i128) as i64
                    } else {
                        u as i64
                    };
                    floats.int_to_f32(s)
                },
                DType::Bool => if raw[off] != 0 {
                    ONE_F32_BITS
                } else {
                    0
                },
            }
        };
        proof {
            if present {
                if dtype == DType::F16 {
                    assert(off == 2 * i);
                }
                if dtype == DType::I32 {
                    assert(off == 4 * i);
                }
                if dtype == DType::I64 {
                    assert(off == 8 * i);
                }
            }
        }
        let ghost o0 = out@;
        out.push(v);
        proof {
            assert forall|k: int| 0 <= k < i implies #[trigger] out@[k] == o0[k] by {}
        }
        i = i + 1;
    }
    out
}

/// An `f32` tile encoded and decoded again is unchanged, and so is a `bool`
/// tile of `0.0` / `1.0` elements.
pub proof fn lemma_codec_roundtrip<F: FloatArith>(floats: &F, data: Seq<u32>, dtype: DType, bytes: Seq<u8>, out: Seq<u32>)
    requires
        dtype == DType::F32 || (dtype == DType::Bool && forall|i: int|
            0 <= i < data.len() ==> #[trigger] data[i] == 0 || data[i] == ONE_F32_BITS),
        encoded(floats, data, dtype, bytes),
        decoded(floats, bytes, dtype, data.len(), out),
    ensures
        out == data,
{
    assert forall|i: int| 0 <= i < data.len() implies out[i] == data[i] by {
        if dtype == DType::F32 {
            assert(bytes.len() == data.len() * 4);
            assert((i + 1) * 4 <= bytes.len());
            assert(bytes.subrange(4 * i, 4 * i + 4) == le4(data[i]));
            lemma_le4_value(data[i]);
            assert(out[i] == le_value(bytes.subrange(4 * i, 4 * i + 4)));
        } else {
            assert(bytes.len() == data.len());
            assert((i + 1) * 1 <= bytes.len());
            assert(data[i] == 0 || data[i] == ONE_F32_BITS);
            assert(ONE_F32_BITS % 0x80000000 != 0);
            assert(bytes[i] == (if is_nonzero_f32(data[i]) { 1u8 } else { 0u8 }));
            assert(out[i] == (if bytes[i] != 0 { ONE_F32_BITS } else { 0u32 }));
        }
    }
    assert(out =~= data);
}


/// What loading back an element `x` stored as `dtype` gives: `x` itself for
/// `f32`; `0.0` / `1.0` for `bool`; the host's widening of the host's
/// half-precision narrowing for `f16`; the host's conversion of the
/// host's rounding to an integer (saturated for `i32`) for the integer
/// types.
pub open spec fn host_roundtrip<F: FloatArith>(floats: &F, dtype: DType, x: u32, y: u32) -> bool {
    match dtype {
        DType::F32 => y == x,
        DType::Bool => y == (if is_nonzero_f32(x) {
            ONE_F32_BITS
        } else {
            0u32
        }),
        DType::F16 => widen_gives(floats, f16_narrow(x), y),
        DType::I32 => exists|r: i64| #[trigger] round_i64_gives(floats, x, r) && int_f32_gives(floats, clamp_i32(r), y),
        DType::I64 => exists|r: i64| #[trigger] round_i64_gives(floats, x, r) && int_f32_gives(floats, r, y),
    }
}

/// Encoding elements and decoding the bytes again gives, element by
/// element, what [`host_roundtrip`] describes, for every dtype.
pub proof fn lemma_codec_host_roundtrip<F: FloatArith>(floats: &F, data: Seq<u32>, dtype: DType, bytes: Seq<u8>, out: Seq<u32>)
    requires
        encoded(floats, data, dtype, bytes),
        decoded(floats, bytes, dtype, data.len(), out),
    ensures
        out.len() == data.len(),
        forall|i: int| 0 <= i < data.len() ==> host_roundtrip(floats, dtype, data[i], #[trigger] out[i]),
{
    assert forall|i: int| 0 <= i < data.len() implies host_roundtrip(floats, dtype, data[i], #[trigger] out[i]) by {
        let bpe = spec_bytes_per_elem(dtype) as int;
        assert((i + 1) * bpe <= data.len() * bpe) by (nonlinear_arith)
            requires
                0 <= i < data.len(),
                bpe >= 0,
        ;
        match dtype {
            DType::F32 => {
                assert(bytes.subrange(4 * i, 4 * i + 4) == le4(data[i]));
                lemma_le4_value(data[i]);
            },
            DType::Bool => {},
            DType::F16 => {
                assert(f16_bytes_of(data[i], bytes[2 * i], bytes[2 * i + 1]));
                let h = f16_narrow(data[i]);
                vstd::arithmetic::div_mod::lemma_fundamental_div_mod(h as int, 256);
                assert((bytes[2 * i] + 256 * bytes[2 * i + 1]) as u16 == h);
            },
            DType::I32 => {
                assert(i32_bytes_of(floats, data[i], bytes.subrange(4 * i, 4 * i + 4)));
                let r = choose|r: i64|
                    #[trigger] round_i64_gives(floats, data[i], r) && bytes.subrange(4 * i, 4 * i + 4) == le4(
                        twos32(clamp_i32(r)),
                    );
                lemma_le4_value(twos32(clamp_i32(r)));
                assert(signed32(twos32(clamp_i32(r)) as int) == clamp_i32(r));
            },
            DType::I64 => {
                assert(i64_bytes_of(floats, data[i], bytes.subrange(8 * i, 8 * i + 8)));
                let r = choose|r: i64|
                    #[trigger] round_i64_gives(floats, data[i], r) && bytes.subrange(8 * i, 8 * i + 8) == le4(
                        (twos64(r) % 4294967296) as u32,
                    ) + le4((twos64(r) / 4294967296) as u32);
                let u = twos64(r);
                let lo = (u % 4294967296) as u32;
                assert(u / 4294967296 < 4294967296) by (nonlinear_arith)
                    requires
                        u < 18446744073709551616,
                ;
                let hi = (u / 4294967296) as u32;
                let eight = bytes.subrange(8 * i, 8 * i + 8);
                assert(bytes.subrange(8 * i, 8 * i + 4) =~= eight.subrange(0, 4));
                assert(bytes.subrange(8 * i + 4, 8 * i + 8) =~= eight.subrange(4, 8));
                assert(eight.subrange(0, 4) =~= le4(lo));
                assert(eight.subrange(4, 8) =~= le4(hi));
                lemma_le4_value(lo);
                lemma_le4_value(hi);
                vstd::arithmetic::div_mod::lemma_fundamental_div_mod(u as int, 4294967296);
                assert(lo + 4294967296 * hi == u);
                assert(signed64(u as int) == r);
            },
        }
    }
}

// ---------------------------------------------------------------------------
// Memory spaces
// ---------------------------------------------------------------------------

/// Where a tile's bytes live: the shared HBM, or an LX scratchpad (core
/// `core_id`'s, or the executing core's own when `None`).
#[derive(Clone, Copy, Debug)]
pub enum MemorySpace {
    Hbm,
    Lx { core_id: Option<usize> },
}

/// A tile's placement in memory: the byte address of its first element, its
/// extents, its element strides, its element type and its memory space.
#[derive(Debug)]
pub struct TileRef {
    pub space: MemorySpace,
    pub base_ptr: i64,
    pub shape: Vec<usize>,
    pub strides: Vec<i64>,
    pub dtype: DType,
}

/// Index of the LX scratchpad `space` names (the executing core's for HBM).
pub open spec fn lx_index(ctx: CoreContext, space: MemorySpace) -> int {
    match space {
        MemorySpace::Lx { core_id: Some(c) } => c as int,
        _ => ctx.core_id as int,
    }
}

/// The allocation table of the store `space` names.
pub open spec fn space_allocs(ctx: CoreContext, space: MemorySpace) -> Allocs {
    match space {
        MemorySpace::Hbm => ctx.mem.hbm.allocations(),
        MemorySpace::Lx { .. } => ctx.mem.lx_scratchpads@[lx_index(ctx, space)].allocations(),
    }
}

/// Every allocation table of the hierarchy is well formed.
pub open spec fn tables_wf(ctx: CoreContext) -> bool {
    &&& allocs_wf(ctx.mem.hbm.allocations())
    &&& forall|c: int| 0 <= c < ctx.mem.lx_scratchpads@.len() ==> allocs_wf(
        #[trigger] ctx.mem.lx_scratchpads@[c].allocations(),
    )
}

/// The context is well formed and `space` names an existing store.
pub open spec fn space_ok(ctx: CoreContext, space: MemorySpace) -> bool {
    &&& ctx.wf()
    &&& tables_wf(ctx)
    &&& 0 <= lx_index(ctx, space) < ctx.mem.lx_scratchpads@.len()
}

/// `b` is `a` with only the allocation table of `space` changed, to `t`
/// (and, for LX, only the scratchpad's table).
pub open spec fn only_table_changed(a: CoreContext, b: CoreContext, space: MemorySpace, t: Allocs) -> bool {
    &&& b.core_id == a.core_id
    &&& b.grid_pos == a.grid_pos
    &&& b.scope_stack == a.scope_stack
    &&& b.lx_bytes == a.lx_bytes
    &&& b.lx_next_ptr_stack == a.lx_next_ptr_stack
    &&& b.mem.num_cores == a.mem.num_cores
    &&& b.mem.lx_scratchpads@.len() == a.mem.lx_scratchpads@.len()
    &&& space_allocs(b, space) == t
    &&& match space {
        MemorySpace::Hbm => {
            &&& b.mem.hbm.next_ptr == a.mem.hbm.next_ptr
            &&& b.mem.hbm.size_bytes == a.mem.hbm.size_bytes
            &&& b.mem.lx_scratchpads@ == a.mem.lx_scratchpads@
        },
        MemorySpace::Lx { .. } => {
            let k = lx_index(a, space);
            &&& b.mem.hbm == a.mem.hbm
            &&& forall|j: int| 0 <= j < a.mem.lx_scratchpads@.len() && j != k ==> #[trigger] b.mem.lx_scratchpads@[j]
                == a.mem.lx_scratchpads@[j]
            &&& b.mem.lx_scratchpads@[k].next_ptr == a.mem.lx_scratchpads@[k].next_ptr
            &&& b.mem.lx_scratchpads@[k].used == a.mem.lx_scratchpads@[k].used
            &&& b.mem.lx_scratchpads@[k].capacity == a.mem.lx_scratchpads@[k].capacity
            &&& b.mem.lx_scratchpads@[k].core_id == a.mem.lx_scratchpads@[k].core_id
        },
    }
}

/// Stick size of a memory space: HBM has 128-byte sticks, LX none.
pub fn stick_bytes_for(space: MemorySpace) -> (r: Option<i64>)
    ensures
        r == (match space {
            MemorySpace::Hbm => Some(STICK_BYTES),
            MemorySpace::Lx { .. } => None::<i64>,
        }),
{
    match space {
        MemorySpace::Hbm => Some(STICK_BYTES),
        MemorySpace::Lx { .. } => None,
    }
}

/// Read `len` raw bytes at `byte_addr` from the store `space` names.
fn read_raw(ctx: &CoreContext, space: MemorySpace, byte_addr: i64, len: usize) -> (out: Vec<u8>)
    requires
        space_ok(*ctx, space),
    ensures
        out@ == spec_read(space_allocs(*ctx, space), byte_addr, len as nat),
{
    match space {
        MemorySpace::Hbm => ctx.mem.hbm.read_bytes(byte_addr, len),
        MemorySpace::Lx { core_id } => {
            let lx = ctx.get_lx(core_id);
            assert(allocs_wf(ctx.mem.lx_scratchpads@[lx_index(*ctx, space)].allocations()));
            lx.read_bytes(byte_addr, len)
        },
    }
}

/// Write raw bytes at `byte_addr` to the store `space` names.
fn write_raw(ctx: &mut CoreContext, space: MemorySpace, byte_addr: i64, data: &[u8])
    requires
        space_ok(*old(ctx), space),
        0 <= byte_addr,
        byte_addr + data@.len() <= i64::MAX,
        byte_addr + data@.len() <= usize::MAX,
    ensures
        space_ok(*final(ctx), space),
        only_table_changed(*old(ctx), *final(ctx), space, spec_write(space_allocs(*old(ctx), space), byte_addr, data@)),
{
    let ghost c0 = *ctx;
    match space {
        MemorySpace::Hbm => {
            ctx.mem.hbm.write_bytes(byte_addr, data);
        },
        MemorySpace::Lx { core_id } => {
            let k = match core_id {
                Some(c) => c,
                None => ctx.core_id,
            };
            assert(allocs_wf(ctx.mem.lx_scratchpads@[k as int].allocations()));
            let lx = ctx.mem.get_lx_mut(k);
            lx.write_bytes(byte_addr, data);
            proof {
                assert forall|c: int| 0 <= c < ctx.mem.lx_scratchpads@.len() implies allocs_wf(
                    #[trigger] ctx.mem.lx_scratchpads@[c].allocations(),
                ) by {
                    if c != k {
                        assert(ctx.mem.lx_scratchpads@[c] == c0.mem.lx_scratchpads@[c]);
                    }
                }
            }
        },
    }
    assert(ctx.local_lx().used == c0.local_lx().used);
}

/// Reserve the next stick-aligned span of the executing core's LX for
/// `raw`, advance its bump pointer past it, and write `raw` there.
fn write_to_lx(ctx: &mut CoreContext, raw: &[u8])
    requires
        space_ok(*old(ctx), MemorySpace::Lx { core_id: None }),
        0 <= old(ctx).local_lx().next_ptr,
        old(ctx).local_lx().next_ptr + raw@.len() + STICK_BYTES <= i64::MAX,
        old(ctx).local_lx().next_ptr + raw@.len() <= usize::MAX,
    ensures
        space_ok(*final(ctx), MemorySpace::Lx { core_id: None }),
        final(ctx).local_lx().next_ptr == stick_round_up(old(ctx).local_lx().next_ptr as int, raw@.len() as int),
        final(ctx).local_lx().allocations() == spec_write(
            old(ctx).local_lx().allocations(),
            old(ctx).local_lx().next_ptr,
            raw@,
        ),
        final(ctx).local_lx().used == old(ctx).local_lx().used,
        final(ctx).local_lx().capacity == old(ctx).local_lx().capacity,
        final(ctx).local_lx().core_id == old(ctx).local_lx().core_id,
        final(ctx).core_id == old(ctx).core_id,
        final(ctx).grid_pos == old(ctx).grid_pos,
        final(ctx).scope_stack == old(ctx).scope_stack,
        final(ctx).lx_bytes == old(ctx).lx_bytes,
        final(ctx).lx_next_ptr_stack == old(ctx).lx_next_ptr_stack,
        final(ctx).mem.hbm == old(ctx).mem.hbm,
        final(ctx).mem.num_cores == old(ctx).mem.num_cores,
        final(ctx).mem.lx_scratchpads@.len() == old(ctx).mem.lx_scratchpads@.len(),
        forall|j: int|
            0 <= j < old(ctx).mem.lx_scratchpads@.len() && j != old(ctx).core_id
                ==> #[trigger] final(ctx).mem.lx_scratchpads@[j] == old(ctx).mem.lx_scratchpads@[j],
{
    let ghost c0 = *ctx;
    let size = raw.len() as i64;
    let k = ctx.core_id;
    assert(allocs_wf(ctx.mem.lx_scratchpads@[k as int].allocations()));
    let lx = ctx.mem.get_lx_mut(k);
    let ptr = lx.next_ptr;
    let a = ptr + size + (STICK_BYTES - 1);
    let rem = a.checked_rem_euclid(STICK_BYTES).unwrap();
    lx.next_ptr = a - rem;
    lx.write_bytes(ptr, raw);
    proof {
        assert forall|c: int| 0 <= c < ctx.mem.lx_scratchpads@.len() implies allocs_wf(
            #[trigger] ctx.mem.lx_scratchpads@[c].allocations(),
        ) by {
            if c != k {
                assert(ctx.mem.lx_scratchpads@[c] == c0.mem.lx_scratchpads@[c]);
            }
        }
    }
}


// ---------------------------------------------------------------------------
// Loads and stores
// ---------------------------------------------------------------------------

/// Largest entry of a nonempty `s`.
pub open spec fn seq_max(s: Seq<int>) -> int
    decreases s.len(),
{
    if s.len() <= 1 {
        s[0]
    } else if s.last() > seq_max(s.drop_last()) {
        s.last()
    } else {
        seq_max(s.drop_last())
    }
}

proof fn lemma_seq_max_in(s: Seq<int>)
    requires
        s.len() > 0,
    ensures
        exists|i: int| 0 <= i < s.len() && s[i] == seq_max(s),
        forall|i: int| 0 <= i < s.len() ==> #[trigger] s[i] <= seq_max(s),
    decreases s.len(),
{
    if s.len() > 1 {
        lemma_seq_max_in(s.drop_last());
        let i = choose|i: int| 0 <= i < s.len() - 1 && s.drop_last()[i] == seq_max(s.drop_last());
        assert(s[i] == s.drop_last()[i]);
        assert forall|j: int| 0 <= j < s.len() implies #[trigger] s[j] <= seq_max(s) by {
            if j < s.len() - 1 {
                assert(s[j] == s.drop_last()[j]);
            }
        }
    } else {
        assert(s[0] == seq_max(s));
    }
}

/// Elements a gather over `offs` spans from the base: one past the largest
/// offset, or 1 when there is none.
pub open spec fn span_of(offs: Seq<int>) -> int {
    if offs.len() == 0 {
        1
    } else {
        seq_max(offs) + 1
    }
}

/// Flat element offsets an access at `tr` visits.
pub open spec fn access_offsets(tr: TileRef, coords: Option<Seq<Seq<int>>>) -> Seq<int> {
    spec_offsets(spec_points(tr.shape@, coords), tr.strides@)
}

/// The access moves one contiguous span: no coordinates, row-major layout.
pub open spec fn is_span_access(tr: TileRef, coords: Option<Seq<Seq<int>>>) -> bool {
    coords is None && spec_is_contiguous(tr.shape@, tr.strides@)
}

/// Bytes of the span an access moves: the whole tile for a span access,
/// else the elements up to the furthest offset.
pub open spec fn access_bytes(tr: TileRef, coords: Option<Seq<Seq<int>>>) -> int {
    if is_span_access(tr, coords) {
        prod(tr.shape@) * spec_bytes_per_elem(tr.dtype)
    } else {
        span_of(access_offsets(tr, coords)) * spec_bytes_per_elem(tr.dtype)
    }
}

/// Elements an access moves.
pub open spec fn access_count(tr: TileRef, coords: Option<Seq<Seq<int>>>) -> int {
    if is_span_access(tr, coords) {
        prod(tr.shape@)
    } else {
        access_offsets(tr, coords).len() as int
    }
}

/// Sticks of `sb` bytes that `len` bytes from `base` fall in.
pub open spec fn span_sticks(base: int, len: int, sb: int) -> int {
    (base + len + sb - 1) / sb - base / sb
}

/// No step of an access at `tr` overflows, indexes out of range, or writes
/// past the end of the address space: the layout check and the offsets fit
/// in `i64`, every offset is nonnegative, and the spans read and written
/// fit in memory.
pub open spec fn access_fits(ctx: CoreContext, tr: TileRef, coords: Option<Seq<Seq<int>>>) -> bool {
    let bpe = spec_bytes_per_elem(tr.dtype) as int;
    let pts = spec_points(tr.shape@, coords);
    &&& space_ok(ctx, tr.space)
    &&& 0 <= tr.base_ptr
    &&& coords is None ==> contiguity_check_fits(tr.shape@, tr.strides@)
    &&& !is_span_access(tr, coords) ==> {
        &&& coords is None ==> strides_fit(tr.shape@) && prod(tr.shape@) <= i64::MAX && prod(tr.shape@)
            <= usize::MAX
        &&& forall|i: int| 0 <= i < pts.len() ==> offset_fits(#[trigger] pts[i], tr.strides@)
        &&& tr.space is Hbm ==> forall|i: int|
            0 <= i < pts.len() ==> stick_fits(
                tr.base_ptr,
                bpe,
                STICK_BYTES,
                spec_offset(#[trigger] pts[i], tr.strides@),
            )
        &&& forall|i: int| 0 <= i < pts.len() ==> 0 <= #[trigger] access_offsets(tr, coords)[i]
    }
    &&& access_bytes(tr, coords) <= usize::MAX
    &&& tr.base_ptr + access_bytes(tr, coords) + STICK_BYTES <= i64::MAX
    &&& tr.base_ptr + access_bytes(tr, coords) <= usize::MAX
    &&& access_count(tr, coords) * bpe <= usize::MAX
}

/// Room in the executing core's LX for the `bytes` a load writes there.
pub open spec fn lx_room(ctx: CoreContext, bytes: int) -> bool {
    &&& 0 <= ctx.local_lx().next_ptr
    &&& ctx.local_lx().next_ptr + bytes + STICK_BYTES <= i64::MAX
    &&& ctx.local_lx().next_ptr + bytes <= usize::MAX
}

/// `data` is what a load of `tr` reads from `ctx`: the span decoded, or, for
/// a gather, the decoded span picked at each offset.
pub open spec fn loaded_data<F: FloatArith>(floats: &F, ctx: CoreContext, tr: TileRef, coords: Option<Seq<Seq<int>>>, data: Seq<u32>) -> bool {
    let raw = spec_read(space_allocs(ctx, tr.space), tr.base_ptr, access_bytes(tr, coords) as nat);
    if is_span_access(tr, coords) {
        decoded(floats, raw, tr.dtype, prod(tr.shape@) as nat, data)
    } else {
        let offs = access_offsets(tr, coords);
        exists|flat: Seq<u32>|
            #[trigger] decoded(floats, raw, tr.dtype, span_of(offs) as nat, flat) && data.len() == offs.len() && forall|i: int|
                0 <= i < offs.len() ==> #[trigger] data[i] == flat[offs[i]]
    }
}

/// Distinct HBM sticks a load or store of `tr` touches; `None` for LX.
pub open spec fn access_sticks(tr: TileRef, coords: Option<Seq<Seq<int>>>) -> Option<usize> {
    match tr.space {
        MemorySpace::Hbm => Some(
            (if is_span_access(tr, coords) {
                span_sticks(tr.base_ptr as int, access_bytes(tr, coords), STICK_BYTES as int)
            } else {
                spec_unique_sticks(
                    access_offsets(tr, coords),
                    tr.base_ptr,
                    spec_bytes_per_elem(tr.dtype) as int,
                    STICK_BYTES,
                ) as int
            }) as usize,
        ),
        MemorySpace::Lx { .. } => None,
    }
}

proof fn lemma_span_sticks_fit(base: int, len: int)
    requires
        0 <= base,
        0 <= len <= usize::MAX,
    ensures
        0 <= span_sticks(base, len, 128) <= usize::MAX,
{
    let e = base + len + 127;
    vstd::arithmetic::div_mod::lemma_fundamental_div_mod(e, 128);
    vstd::arithmetic::div_mod::lemma_fundamental_div_mod(base, 128);
    vstd::arithmetic::div_mod::lemma_fundamental_div_mod(len, 128);
    assert(0 <= e % 128 < 128);
    assert(0 <= base % 128 < 128);
    assert(0 <= len % 128 < 128);
    assert(e / 128 - base / 128 <= len / 128 + 2) by (nonlinear_arith)
        requires
            e == 128 * (e / 128) + e % 128,
            base == 128 * (base / 128) + base % 128,
            len == 128 * (len / 128) + len % 128,
            0 <= e % 128 < 128,
            0 <= base % 128 < 128,
            0 <= len % 128 < 128,
            e == base + len + 127,
    ;
    assert(e / 128 >= base / 128) by {
        vstd::arithmetic::div_mod::lemma_div_is_ordered(base, e, 128);
    }
    assert(len / 128 + 2 <= usize::MAX) by (nonlinear_arith)
        requires
            0 <= len <= usize::MAX,
            usize::MAX >= 0xffff_ffff,
    ;
}

fn span_sticks_exec(base: i64, len: usize) -> (r: usize)
    requires
        0 <= base,
        base + len + STICK_BYTES <= i64::MAX,
    ensures
        r == span_sticks(base as int, len as int, STICK_BYTES as int),
{
    proof {
        lemma_span_sticks_fit(base as int, len as int);
    }
    let end = base + len as i64;
    ((end + STICK_BYTES - 1) / STICK_BYTES - base / STICK_BYTES) as usize
}

fn span_from_offsets(offs: &Vec<i64>) -> (r: usize)
    requires
        forall|i: int| 0 <= i < offs@.len() ==> 0 <= #[trigger] offs@[i],
        span_of(offs@.map_values(|o: i64| o as int)) <= usize::MAX,
    ensures
        r == span_of(offs@.map_values(|o: i64| o as int)),
        forall|i: int| 0 <= i < offs@.len() ==> #[trigger] offs@[i] < r,
{
    let ghost os = offs@.map_values(|o: i64| o as int);
    if offs.len() == 0 {
        return 1;
    }
    let mut m: i64 = offs[0];
    let mut i: usize = 1;
    assert(os.take(1).len() == 1);
    while i < offs.len()
        invariant
            1 <= i <= offs@.len(),
            os == offs@.map_values(|o: i64| o as int),
            m == seq_max(os.take(i as int)),
            forall|k: int| 0 <= k < i ==> #[trigger] offs@[k] <= m,
        decreases offs@.len() - i,
    {
        assert(os.take(i + 1).drop_last() =~= os.take(i as int));
        if offs[i] > m {
            m = offs[i];
        }
        i = i + 1;
    }
    assert(os.take(offs@.len() as int) =~= os);
    (m as usize) + 1
}

/// Read the tile `tr` describes (all of it, or the points `coords` lists),
/// decode it per its dtype, and copy the decoded tile into the executing
/// core's LX.
pub fn load_data<F: FloatArith>(
    ctx: &mut CoreContext,
    tr: &TileRef,
    coords: Option<&[Vec<i64>]>,
    result_shape: Option<Vec<usize>>,
    floats: &F,
) -> (r: Result<Tile, String>)
    requires
        access_fits(*old(ctx), *tr, coords_view(coords)),
        lx_room(*old(ctx), access_count(*tr, coords_view(coords)) * spec_bytes_per_elem(tr.dtype)),
    ensures
        r matches Ok(t) && {
            &&& t.dtype == tr.dtype
            &&& t.index_unique_sticks is None
            &&& t.unique_sticks == access_sticks(*tr, coords_view(coords))
            &&& t.shape@ == (if is_span_access(*tr, coords_view(coords)) {
                tr.shape@
            } else {
                match result_shape {
                    Some(s) => s@,
                    None => tr.shape@,
                }
            })
            &&& loaded_data(floats, *old(ctx), *tr, coords_view(coords), t.data@)
            &&& exists|b: Seq<u8>|
                #[trigger] encoded(floats, t.data@, tr.dtype, b) && final(ctx).local_lx().allocations() == spec_write(
                    old(ctx).local_lx().allocations(),
                    old(ctx).local_lx().next_ptr,
                    b,
                ) && final(ctx).local_lx().next_ptr == stick_round_up(
                    old(ctx).local_lx().next_ptr as int,
                    b.len() as int,
                )
        },
        space_ok(*final(ctx), MemorySpace::Lx { core_id: None }),
        final(ctx).core_id == old(ctx).core_id,
        final(ctx).grid_pos == old(ctx).grid_pos,
        final(ctx).scope_stack == old(ctx).scope_stack,
        final(ctx).lx_bytes == old(ctx).lx_bytes,
        final(ctx).lx_next_ptr_stack == old(ctx).lx_next_ptr_stack,
        final(ctx).mem.hbm == old(ctx).mem.hbm,
        final(ctx).mem.lx_scratchpads@.len() == old(ctx).mem.lx_scratchpads@.len(),
        forall|j: int|
            0 <= j < old(ctx).mem.lx_scratchpads@.len() && j != old(ctx).core_id
                ==> #[trigger] final(ctx).mem.lx_scratchpads@[j] == old(ctx).mem.lx_scratchpads@[j],
{
    let ghost cv = coords_view(coords);
    let ghost c0 = *ctx;
    let dtype = tr.dtype;
    let bpe = dtype.bytes_per_elem();
    let space = tr.space;
    let stick_bytes = stick_bytes_for(space);
    assert(0 <= lx_index(c0, MemorySpace::Lx { core_id: None }) < c0.mem.lx_scratchpads@.len());
    if coords.is_none() && is_contiguous(&tr.shape, &tr.strides) {
        let n = shape_size(&tr.shape).unwrap();
        proof {
            lemma_prod_nonneg(tr.shape@);
        }
        let nb = n * bpe;
        let raw = read_raw(ctx, space, tr.base_ptr, nb);
        let data = decode(&raw, dtype, n, floats);
        let bytes = encode(&data, dtype, floats);
        write_to_lx(ctx, &bytes);
        let unique_sticks = match stick_bytes {
            Some(_) => Some(span_sticks_exec(tr.base_ptr, nb)),
            None => None,
        };
        let t = Tile { data, dtype, shape: tr.shape.clone(), unique_sticks, index_unique_sticks: None };
        assert(encoded(floats, t.data@, dtype, bytes@));
        return Ok(t);
    }
    let (offsets, unique_sticks) = flat_memory_offsets(
        tr.base_ptr,
        &tr.shape,
        &tr.strides,
        dtype,
        coords,
        stick_bytes,
    );
    let ghost offs = access_offsets(*tr, cv);
    assert(offsets@.map_values(|o: i64| o as int) =~= offs);
    assert forall|i: int| 0 <= i < offsets@.len() implies 0 <= #[trigger] offsets@[i] by {
        assert(offs[i] == offsets@[i]);
        assert(0 <= access_offsets(*tr, cv)[i]);
    }
    assert(span_of(offs) <= usize::MAX) by {
        assert(span_of(offs) >= 1) by {
            if offs.len() > 0 {
                lemma_seq_max_in(offs);
            }
        }
        assert(span_of(offs) <= span_of(offs) * bpe) by (nonlinear_arith)
            requires
                span_of(offs) >= 1,
                bpe >= 1,
        ;
    }
    let span = span_from_offsets(&offsets);
    let raw = read_raw(ctx, space, tr.base_ptr, span * bpe);
    let flat = decode(&raw, dtype, span, floats);
    let mut gathered: Vec<u32> = Vec::new();
    let mut i: usize = 0;
    while i < offsets.len()
        invariant
            0 <= i <= offsets@.len(),
            offs == offsets@.map_values(|o: i64| o as int),
            flat@.len() == span,
            forall|k: int| 0 <= k < offsets@.len() ==> 0 <= #[trigger] offsets@[k] < span,
            gathered@.len() == i,
            forall|k: int| 0 <= k < i ==> #[trigger] gathered@[k] == flat@[offs[k]],
        decreases offsets@.len() - i,
    {
        let o = offsets[i];
        gathered.push(flat[o as usize]);
        i = i + 1;
    }
    let out_shape = match result_shape {
        Some(s) => s,
        None => tr.shape.clone(),
    };
    let bytes = encode(&gathered, dtype, floats);
    write_to_lx(ctx, &bytes);
    let t = Tile { data: gathered, dtype, shape: out_shape, unique_sticks, index_unique_sticks: None };
    assert(encoded(floats, t.data@, dtype, bytes@));
    assert(!is_span_access(*tr, cv));
    assert(access_bytes(*tr, cv) == span * bpe);
    assert(raw@ == spec_read(space_allocs(c0, tr.space), tr.base_ptr, access_bytes(*tr, cv) as nat));
    assert(decoded(floats, raw@, dtype, span_of(offs) as nat, flat@));
    assert(loaded_data(floats, c0, *tr, cv, t.data@));
    assert(t.unique_sticks == access_sticks(*tr, cv));
    Ok(t)
}

/// `flat` with `data[i]` written at `offs[i]` for each `i < k`, in order
/// (of two writes to one offset, the later stays).
pub open spec fn scatter(flat: Seq<u32>, offs: Seq<int>, data: Seq<u32>, k: int) -> Seq<u32>
    decreases k,
{
    if k <= 0 {
        flat
    } else {
        scatter(flat, offs, data, k - 1).update(offs[k - 1], data[k - 1])
    }
}

/// `t` is the allocation table a store of `data` at `tr` leaves in the
/// store's memory space, starting from `ctx`: the encoded tile written at
/// the base, or, for a scatter, the span read back, decoded, updated at each
/// offset, encoded and written back.
pub open spec fn stored_table<F: FloatArith>(floats: &F, 
    ctx: CoreContext,
    tr: TileRef,
    coords: Option<Seq<Seq<int>>>,
    data: Seq<u32>,
    t: Allocs,
) -> bool {
    let allocs = space_allocs(ctx, tr.space);
    if is_span_access(tr, coords) {
        exists|b: Seq<u8>| #[trigger] encoded(floats, data, tr.dtype, b) && t == spec_write(allocs, tr.base_ptr, b)
    } else {
        let offs = access_offsets(tr, coords);
        let raw = spec_read(allocs, tr.base_ptr, access_bytes(tr, coords) as nat);
        exists|flat: Seq<u32>, b: Seq<u8>|
            #[trigger] decoded(floats, raw, tr.dtype, span_of(offs) as nat, flat) && #[trigger] encoded(floats, 
                scatter(flat, offs, data, offs.len() as int),
                tr.dtype,
                b,
            ) && t == spec_write(allocs, tr.base_ptr, b)
    }
}

/// Encode `tile` per `tr`'s dtype and write it to the memory `tr` describes
/// (all of it, or the points `coords` lists, read-modify-write). Returns
/// the distinct HBM sticks touched (0 for LX).
pub fn store_data<F: FloatArith>(
    ctx: &mut CoreContext,
    tile: &Tile,
    tr: &TileRef,
    coords: Option<&[Vec<i64>]>,
    floats: &F,
) -> (r: Result<usize, String>)
    requires
        access_fits(*old(ctx), *tr, coords_view(coords)),
        is_span_access(*tr, coords_view(coords)) ==> tile.data@.len() * spec_bytes_per_elem(tr.dtype) <= usize::MAX
            && tr.base_ptr + tile.data@.len() * spec_bytes_per_elem(tr.dtype) <= i64::MAX
            && tr.base_ptr + tile.data@.len() * spec_bytes_per_elem(tr.dtype) <= usize::MAX,
        !is_span_access(*tr, coords_view(coords)) ==> tile.data@.len() >= access_offsets(
            *tr,
            coords_view(coords),
        ).len(),
    ensures
        r matches Ok(n) && n == match access_sticks(*tr, coords_view(coords)) {
            Some(k) => k,
            None => 0,
        },
        space_ok(*final(ctx), tr.space),
        stored_table(floats, *old(ctx), *tr, coords_view(coords), tile.data@, space_allocs(*final(ctx), tr.space)),
        only_table_changed(*old(ctx), *final(ctx), tr.space, space_allocs(*final(ctx), tr.space)),
{
    let ghost cv = coords_view(coords);
    let ghost c0 = *ctx;
    let dtype = tr.dtype;
    let bpe = dtype.bytes_per_elem();
    let space = tr.space;
    let stick_bytes = stick_bytes_for(space);
    if coords.is_none() && is_contiguous(&tr.shape, &tr.strides) {
        let raw = encode(&tile.data, dtype, floats);
        write_raw(ctx, space, tr.base_ptr, &raw);
        assert(encoded(floats, tile.data@, dtype, raw@));
        let n = match stick_bytes {
            None => 0,
            Some(_) => {
                let k = shape_size(&tr.shape).unwrap();
                proof {
                    lemma_prod_nonneg(tr.shape@);
                }
                span_sticks_exec(tr.base_ptr, k * bpe)
            },
        };
        return Ok(n);
    }
    let (offsets, unique_sticks) = flat_memory_offsets(
        tr.base_ptr,
        &tr.shape,
        &tr.strides,
        dtype,
        coords,
        stick_bytes,
    );
    let ghost offs = access_offsets(*tr, cv);
    assert(offsets@.map_values(|o: i64| o as int) =~= offs);
    assert forall|i: int| 0 <= i < offsets@.len() implies 0 <= #[trigger] offsets@[i] by {
        assert(offs[i] == offsets@[i]);
        assert(0 <= access_offsets(*tr, cv)[i]);
    }
    assert(span_of(offs) <= usize::MAX) by {
        assert(span_of(offs) >= 1) by {
            if offs.len() > 0 {
                lemma_seq_max_in(offs);
            }
        }
        assert(span_of(offs) <= span_of(offs) * bpe) by (nonlinear_arith)
            requires
                span_of(offs) >= 1,
                bpe >= 1,
        ;
    }
    let span = span_from_offsets(&offsets);
    let raw = read_raw(ctx, space, tr.base_ptr, span * bpe);
    let mut flat = decode(&raw, dtype, span, floats);
    let ghost flat0 = flat@;
    let mut i: usize = 0;
    while i < offsets.len()
        invariant
            0 <= i <= offsets@.len(),
            offs == offsets@.map_values(|o: i64| o as int),
            offsets@.len() <= tile.data@.len(),
            flat@.len() == span,
            forall|k: int| 0 <= k < offsets@.len() ==> 0 <= #[trigger] offsets@[k] < span,
            flat@ == scatter(flat0, offs, tile.data@, i as int),
        decreases offsets@.len() - i,
    {
        let o = offsets[i];
        flat.set(o as usize, tile.data[i]);
        i = i + 1;
    }
    proof {
        vstd::arithmetic::mul::lemma_mul_is_commutative(span as int, bpe as int);
    }
    let new_raw = encode(&flat, dtype, floats);
    write_raw(ctx, space, tr.base_ptr, &new_raw);
    assert(decoded(floats, raw@, dtype, span_of(offs) as nat, flat0));
    assert(encoded(floats, scatter(flat0, offs, tile.data@, offs.len() as int), dtype, new_raw@));
    let n = match unique_sticks {
        Some(k) => k,
        None => 0,
    };
    Ok(n)
}

/// Storing a whole contiguous tile and loading it back gives, element by
/// element, what the host's conversions make of the stored elements
/// ([`host_roundtrip`]); so the stored elements themselves for `f32`
/// always, and for `bool` when every element is `0.0` or `1.0`. `c2` is any
/// context whose table for the tile's memory space is the one the store
/// left behind.
pub proof fn lemma_store_then_load<F: FloatArith>(floats: &F, 
    c1: CoreContext,
    c2: CoreContext,
    tr: TileRef,
    data: Seq<u32>,
    out: Seq<u32>,
)
    requires
        is_span_access(tr, None),
        data.len() == prod(tr.shape@),
        space_ok(c1, tr.space),
        0 <= tr.base_ptr,
        tr.base_ptr + data.len() * spec_bytes_per_elem(tr.dtype) <= i64::MAX,
        stored_table(floats, c1, tr, None, data, space_allocs(c2, tr.space)),
        loaded_data(floats, c2, tr, None, out),
    ensures
        out.len() == data.len(),
        forall|i: int| 0 <= i < data.len() ==> host_roundtrip(floats, tr.dtype, data[i], #[trigger] out[i]),
        (tr.dtype == DType::F32 || (tr.dtype == DType::Bool && forall|i: int|
            0 <= i < data.len() ==> #[trigger] data[i] == 0 || data[i] == ONE_F32_BITS)) ==> out == data,
{
    let t1 = space_allocs(c1, tr.space);
    let b = choose|b: Seq<u8>| #[trigger] encoded(floats, data, tr.dtype, b) && space_allocs(c2, tr.space) == spec_write(
        t1,
        tr.base_ptr,
        b,
    );
    assert(allocs_wf(t1)) by {
        if tr.space is Lx {
            assert(allocs_wf(c1.mem.lx_scratchpads@[lx_index(c1, tr.space)].allocations()));
        }
    }
    assert(access_bytes(tr, None) == b.len());
    crate::memory::lemma_write_then_read(t1, tr.base_ptr, b);
    lemma_codec_host_roundtrip(floats, data, tr.dtype, b, out);
    if tr.dtype == DType::F32 || (tr.dtype == DType::Bool && forall|i: int|
        0 <= i < data.len() ==> #[trigger] data[i] == 0 || data[i] == ONE_F32_BITS) {
        lemma_codec_roundtrip(floats, data, tr.dtype, b, out);
    }
}

proof fn lemma_scatter_shape(flat: Seq<u32>, offs: Seq<int>, data: Seq<u32>, k: int)
    requires
        0 <= k <= offs.len(),
        k <= data.len(),
        forall|j: int| 0 <= j < k ==> 0 <= #[trigger] offs[j] < flat.len(),
    ensures
        scatter(flat, offs, data, k).len() == flat.len(),
        (forall|j: int| 0 <= j < flat.len() ==> #[trigger] flat[j] == 0 || flat[j] == ONE_F32_BITS) && (forall|j: int|
            0 <= j < k ==> #[trigger] data[j] == 0 || data[j] == ONE_F32_BITS) ==> forall|j: int|
            0 <= j < flat.len() ==> #[trigger] scatter(flat, offs, data, k)[j] == 0 || scatter(
                flat,
                offs,
                data,
                k,
            )[j] == ONE_F32_BITS,
    decreases k,
{
    if k > 0 {
        lemma_scatter_shape(flat, offs, data, k - 1);
    }
}

proof fn lemma_scatter_at(flat: Seq<u32>, offs: Seq<int>, data: Seq<u32>, k: int, i: int)
    requires
        0 <= i < k <= offs.len(),
        k <= data.len(),
        forall|j: int| 0 <= j < k ==> 0 <= #[trigger] offs[j] < flat.len(),
        forall|a: int, b: int| 0 <= a < b < k ==> #[trigger] offs[a] != #[trigger] offs[b],
    ensures
        scatter(flat, offs, data, k)[offs[i]] == data[i],
    decreases k,
{
    lemma_scatter_shape(flat, offs, data, k - 1);
    if i < k - 1 {
        lemma_scatter_at(flat, offs, data, k - 1, i);
        assert(offs[i] != offs[k - 1]);
    }
}

/// Storing a tile at a list of distinct points and loading the same points
/// back gives the stored elements (one per point): for `f32` always, for
/// `bool` when every element is `0.0` or `1.0`. `c2` is any context whose
/// table for the tile's memory space is the one the store left behind.
pub proof fn lemma_scatter_then_gather<F: FloatArith>(floats: &F, 
    c1: CoreContext,
    c2: CoreContext,
    tr: TileRef,
    coords: Option<Seq<Seq<int>>>,
    data: Seq<u32>,
    out: Seq<u32>,
)
    requires
        !is_span_access(tr, coords),
        tr.dtype == DType::F32 || (tr.dtype == DType::Bool && forall|i: int|
            0 <= i < data.len() ==> #[trigger] data[i] == 0 || data[i] == ONE_F32_BITS),
        forall|i: int| 0 <= i < access_offsets(tr, coords).len() ==> 0 <= #[trigger] access_offsets(tr, coords)[i],
        forall|a: int, b: int|
            0 <= a < b < access_offsets(tr, coords).len() ==> #[trigger] access_offsets(tr, coords)[a]
                != #[trigger] access_offsets(tr, coords)[b],
        data.len() >= access_offsets(tr, coords).len(),
        space_ok(c1, tr.space),
        0 <= tr.base_ptr,
        tr.base_ptr + access_bytes(tr, coords) <= i64::MAX,
        stored_table(floats, c1, tr, coords, data, space_allocs(c2, tr.space)),
        loaded_data(floats, c2, tr, coords, out),
    ensures
        out == data.subrange(0, access_offsets(tr, coords).len() as int),
{
    let offs = access_offsets(tr, coords);
    let n = offs.len() as int;
    let t1 = space_allocs(c1, tr.space);
    let span = span_of(offs);
    let raw = spec_read(t1, tr.base_ptr, access_bytes(tr, coords) as nat);
    let (flat0, b) = choose|flat: Seq<u32>, b: Seq<u8>|
        #[trigger] decoded(floats, raw, tr.dtype, span as nat, flat) && #[trigger] encoded(floats, 
            scatter(flat, offs, data, n),
            tr.dtype,
            b,
        ) && space_allocs(c2, tr.space) == spec_write(t1, tr.base_ptr, b);
    assert(allocs_wf(t1)) by {
        if tr.space is Lx {
            assert(allocs_wf(c1.mem.lx_scratchpads@[lx_index(c1, tr.space)].allocations()));
        }
    }
    if n > 0 {
        lemma_seq_max_in(offs);
    }
    assert forall|j: int| 0 <= j < n implies 0 <= #[trigger] offs[j] < flat0.len() by {
        assert(offs[j] <= seq_max(offs));
    }
    let sc = scatter(flat0, offs, data, n);
    lemma_scatter_shape(flat0, offs, data, n);
    if tr.dtype == DType::Bool {
        assert forall|j: int| 0 <= j < flat0.len() implies #[trigger] flat0[j] == 0 || flat0[j] == ONE_F32_BITS by {
            if (j + 1) * 1 <= raw.len() {
                assert(flat0[j] == (if raw[j] != 0 { ONE_F32_BITS } else { 0u32 }));
            }
        }
    }
    assert(b.len() == access_bytes(tr, coords));
    crate::memory::lemma_write_then_read(t1, tr.base_ptr, b);
    let flat1 = choose|flat: Seq<u32>|
        #[trigger] decoded(floats, 
            spec_read(space_allocs(c2, tr.space), tr.base_ptr, access_bytes(tr, coords) as nat),
            tr.dtype,
            span as nat,
            flat,
        ) && out.len() == offs.len() && forall|i: int| 0 <= i < offs.len() ==> #[trigger] out[i] == flat[offs[i]];
    lemma_codec_roundtrip(floats, sc, tr.dtype, b, flat1);
    assert forall|i: int| 0 <= i < n implies out[i] == data[i] by {
        lemma_scatter_at(flat0, offs, data, n, i);
    }
    assert(out =~= data.subrange(0, n));
}

} // verus!
