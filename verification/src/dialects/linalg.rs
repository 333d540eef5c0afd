//! `linalg` dialect: the structured ops `matmul`, `batch_matmul`,
//! `generic` and `reduce`, the data-movement ops `transpose`, `broadcast` and
//! `fill`, `index` (the broadcasting index array of a `generic` iteration) and
//! the `yield` terminator, which hands a region's value back to its driver.

use vstd::prelude::*;
use vstd::arithmetic::power2::{pow2, lemma_pow2_adds, lemma_pow2_pos, lemma2_to64};
use super::{Dispatch, Handler, LatencyCategory};
use crate::context::CoreContext;
use crate::dtypes::DType;
use crate::ir::{Attr, Operation, Scalar, Tile, Value, attr_lookup};
use crate::env::{ExecutionEnv, FloatArith, addf_gives, mulf_gives, rounded_to};
use crate::interpreter::{exec_frame, execute_op, execute_leaf_op};
use crate::ir::strings_view;
use crate::scan::{trimmed, trim, slice_chars};
use crate::shape::{prod, shape_size};
use crate::tensor::{
    permuted_shape, spec_transpose, transpose_data, i64_le, sort_i64s, spec_broadcast, bcast_feasible,
    bcast_feasible_check, broadcast_to, shape_eq, slice_along, concat_along, concat_feasible_check,
};

verus! {

/// Scope key holding the current `linalg.generic` iteration shape (a tuple of
/// indices), read by `linalg.index`.
pub const SHAPE_KEY: &'static str = "__linalg_shape__";

/// Register the `linalg` ops: `matmul`, `batch_matmul` and `generic` are
/// charged as float compute; `reduce` and the data-movement ops cost nothing
/// themselves (a reduce's cost is that of its combiner's ops).
pub fn register(d: &mut Dispatch)
    requires
        old(d).wf(),
    ensures
        final(d).wf(),
        final(d).handler_map() == old(d).handler_map().insert("linalg.matmul"@, Handler::LinalgMatmul).insert(
            "linalg.batch_matmul"@,
            Handler::LinalgBatchMatmul,
        ).insert("linalg.generic"@, Handler::LinalgGeneric).insert("linalg.reduce"@, Handler::LinalgReduce).insert(
            "linalg.transpose"@,
            Handler::LinalgTranspose,
        ).insert("linalg.broadcast"@, Handler::LinalgBroadcast).insert("linalg.fill"@, Handler::LinalgFill).insert(
            "linalg.index"@,
            Handler::LinalgIndex,
        ).insert("linalg.yield"@, Handler::LinalgYield),
        final(d).latency_map() == old(d).latency_map().insert("linalg.matmul"@, LatencyCategory::ComputeFloat).insert(
            "linalg.batch_matmul"@,
            LatencyCategory::ComputeFloat,
        ).insert("linalg.generic"@, LatencyCategory::ComputeFloat).insert("linalg.reduce"@, LatencyCategory::Zero).insert(
            "linalg.transpose"@,
            LatencyCategory::Zero,
        ).insert("linalg.broadcast"@, LatencyCategory::Zero).insert("linalg.fill"@, LatencyCategory::Zero).insert(
            "linalg.index"@,
            LatencyCategory::Zero,
        ).insert("linalg.yield"@, LatencyCategory::Zero),
{
    d.register("linalg.matmul", LatencyCategory::ComputeFloat, Handler::LinalgMatmul);
    d.register("linalg.batch_matmul", LatencyCategory::ComputeFloat, Handler::LinalgBatchMatmul);
    d.register("linalg.generic", LatencyCategory::ComputeFloat, Handler::LinalgGeneric);
    d.register("linalg.reduce", LatencyCategory::Zero, Handler::LinalgReduce);
    d.register("linalg.transpose", LatencyCategory::Zero, Handler::LinalgTranspose);
    d.register("linalg.broadcast", LatencyCategory::Zero, Handler::LinalgBroadcast);
    d.register("linalg.fill", LatencyCategory::Zero, Handler::LinalgFill);
    d.register("linalg.index", LatencyCategory::Zero, Handler::LinalgIndex);
    d.register("linalg.yield", LatencyCategory::Zero, Handler::LinalgYield);
}

/// `floor(log2(n))` for `n >= 1` (0 for 0).
pub open spec fn log2_floor(n: nat) -> nat
    decreases n,
{
    if n <= 1 {
        0
    } else {
        1 + log2_floor(n / 2)
    }
}

/// The IEEE-754 single-precision bit pattern of the natural number `n`, for
/// `n < 2^24` (every such integer is exactly representable).
pub open spec fn small_int_f32_bits(n: nat) -> int {
    if n == 0 {
        0
    } else {
        let e = log2_floor(n);
        (127 + e) * 0x800000 + (n - pow2(e)) * pow2((23 - e) as nat)
    }
}

proof fn lemma_log2_bounds(n: nat)
    requires
        n >= 1,
    ensures
        pow2(log2_floor(n)) <= n < pow2(log2_floor(n) + 1),
    decreases n,
{
    if n <= 1 {
        lemma2_to64();
    } else {
        lemma_log2_bounds(n / 2);
        let e = log2_floor(n / 2);
        vstd::arithmetic::power2::lemma_pow2_unfold(e + 1);
        vstd::arithmetic::power2::lemma_pow2_unfold(e + 2);
    }
}

proof fn lemma_log2_small(n: nat)
    requires
        1 <= n < 0x1000000,
    ensures
        log2_floor(n) <= 23,
{
    lemma_log2_bounds(n);
    let e = log2_floor(n);
    if e > 24 {
        vstd::arithmetic::power2::lemma_pow2_strictly_increases(24, e);
    }
    lemma2_to64();
}

/// The `f32` bit pattern of `n`, exact for `n < 2^24`.
pub fn small_int_to_f32_bits(n: u32) -> (b: u32)
    requires
        n < 0x1000000,
    ensures
        b == small_int_f32_bits(n as nat),
        b < 0x80000000,
{
    if n == 0 {
        return 0;
    }
    let mut m: u32 = n;
    let mut e: u32 = 0;
    proof {
        lemma_log2_small(n as nat);
    }
    while m > 1
        invariant
            1 <= m <= n < 0x1000000,
            log2_floor(n as nat) == e + log2_floor(m as nat),
            e <= 32,
            e + log2_floor(m as nat) <= 23,
        decreases m,
    {
        proof {
            lemma_log2_small(n as nat);
        }
        m = m / 2;
        e = e + 1;
    }
    proof {
        lemma_log2_small(n as nat);
        lemma_log2_bounds(n as nat);
        lemma_pow2_adds(e as nat, (23 - e) as nat);
        lemma2_to64();
        lemma_pow2_pos(e as nat);
        lemma_pow2_pos((23 - e) as nat);
    }
    let mut p: u32 = 1;
    let mut i: u32 = 0;
    while i < e
        invariant
            0 <= i <= e <= 23,
            p == pow2(i as nat),
        decreases e - i,
    {
        proof {
            vstd::arithmetic::power2::lemma_pow2_unfold((i + 1) as nat);
            vstd::arithmetic::power2::lemma_pow2_strictly_increases((i + 1) as nat, 24);
            lemma2_to64();
        }
        p = p * 2;
        i = i + 1;
    }
    let mut q: u32 = 1;
    let mut j: u32 = 0;
    while j < 23 - e
        invariant
            0 <= j <= 23 - e,
            e <= 23,
            q == pow2(j as nat),
        decreases 23 - e - j,
    {
        proof {
            vstd::arithmetic::power2::lemma_pow2_unfold((j + 1) as nat);
            vstd::arithmetic::power2::lemma_pow2_strictly_increases((j + 1) as nat, 24);
            lemma2_to64();
        }
        q = q * 2;
        j = j + 1;
    }
    assert(p == pow2(e as nat));
    assert(q == pow2((23 - e) as nat));
    assert((n - p) * q < 0x800000) by (nonlinear_arith)
        requires
            0 <= n - p < p,
            p * q == 0x800000,
            q > 0,
    ;
    (127 + e) * 0x800000 + (n - p) * q
}

/// The iteration extents recorded under [`SHAPE_KEY`], when that binding is a
/// tuple of nonnegative indices.
pub open spec fn shape_extents(v: Option<Value>) -> Option<Seq<int>> {
    match v {
        Some(Value::Tuple(items)) => if forall|i: int|
            0 <= i < items@.len() ==> (#[trigger] items@[i] matches Value::Index(k) && 0 <= k <= usize::MAX) {
            Some(Seq::new(items@.len(), |i: int| items@[i]->Index_0 as int))
        } else {
            None
        },
        _ => None,
    }
}

/// The iteration dimension `linalg.index` reads (`dim` attribute, default 0).
pub open spec fn index_dim(op: Operation) -> int {
    match attr_lookup(op.attributes@, "dim"@) {
        Some(Attr::Int(d)) => d as int,
        _ => 0,
    }
}

/// `%r = linalg.index <dim>`: an `i32` tile holding `0, 1, ..., n - 1` where
/// `n` is the iteration extent along `dim`, shaped `n` along `dim` and 1
/// along every other iteration axis.
pub fn index(op: &Operation, ctx: &CoreContext) -> (r: Result<Option<Value>, String>)
    requires
        ctx.wf(),
    ensures
        r is Ok <==> (shape_extents(ctx.lookup(SHAPE_KEY@)) matches Some(ext) && 0 <= index_dim(*op)
            < ext.len() && ext[index_dim(*op)] < 0x1000000),
        r matches Ok(v) ==> (v matches Some(Value::Tile(t)) && {
            let ext = shape_extents(ctx.lookup(SHAPE_KEY@))->0;
            let d = index_dim(*op);
            &&& t.dtype == DType::I32
            &&& t.shape@.len() == ext.len()
            &&& forall|k: int| 0 <= k < ext.len() ==> #[trigger] t.shape@[k] == (if k == d {
                ext[d]
            } else {
                1
            })
            &&& t.data@.len() == ext[d]
            &&& forall|i: int| 0 <= i < ext[d] ==> #[trigger] t.data@[i] == small_int_f32_bits(i as nat)
            &&& t.unique_sticks is None
            &&& t.index_unique_sticks is None
        }),
{
    let dim: i64 = match op.get_attr("dim") {
        Some(Attr::Int(d)) => *d,
        _ => 0,
    };
    let items = match ctx.get_value(SHAPE_KEY) {
        Ok(Value::Tuple(items)) => items,
        Ok(_) => {
            return Err(String::from_str("linalg.index: __linalg_shape__ is not a shape tuple"));
        },
        Err(e) => {
            return Err(e);
        },
    };
    let ghost ext_opt = shape_extents(ctx.lookup(SHAPE_KEY@));
    let mut out_shape: Vec<usize> = Vec::new();
    let mut i: usize = 0;
    while i < items.len()
        invariant
            0 <= i <= items@.len(),
            out_shape@.len() == i,
            ctx.lookup(SHAPE_KEY@) == Some(Value::Tuple(*items)),
            forall|k: int| 0 <= k < i ==> (#[trigger] items@[k] matches Value::Index(x) && 0 <= x <= usize::MAX
                && out_shape@[k] == x),
        decreases items@.len() - i,
    {
        match &items[i] {
            Value::Index(x) => {
                if *x < 0 || *x as u64 > usize::MAX as u64 {
                    return Err(String::from_str("linalg.index: bad shape entry"));
                }
                out_shape.push(*x as usize);
            },
            _ => {
                return Err(String::from_str("linalg.index: bad shape entry"));
            },
        }
        i = i + 1;
    }
    if dim < 0 || dim as u64 >= out_shape.len() as u64 {
        return Err(String::from_str("linalg.index: dim out of range"));
    }
    let d = dim as usize;
    let n = out_shape[d];
    if n >= 0x1000000 {
        return Err(String::from_str("linalg.index: extent not exactly representable"));
    }
    let mut shape: Vec<usize> = Vec::new();
    let mut k: usize = 0;
    while k < out_shape.len()
        invariant
            0 <= k <= out_shape@.len(),
            d < out_shape@.len(),
            n == out_shape@[d as int],
            shape@.len() == k,
            forall|j: int| 0 <= j < k ==> #[trigger] shape@[j] == (if j == d {
                out_shape@[d as int]
            } else {
                1
            }),
        decreases out_shape@.len() - k,
    {
        if k == d {
            shape.push(n);
        } else {
            shape.push(1);
        }
        k = k + 1;
    }
    let mut data: Vec<u32> = Vec::new();
    let mut v: usize = 0;
    while v < n
        invariant
            0 <= v <= n < 0x1000000,
            data@.len() == v,
            forall|j: int| 0 <= j < v ==> #[trigger] data@[j] == small_int_f32_bits(j as nat),
        decreases n - v,
    {
        data.push(small_int_to_f32_bits(v as u32));
        v = v + 1;
    }
    proof {
        reveal_strlit("__linalg_shape__");
    }
    Ok(
        Some(
            Value::Tile(
                Tile {
                    data,
                    dtype: DType::I32,
                    shape,
                    unique_sticks: None,
                    index_unique_sticks: None,
                },
            ),
        ),
    )
}

/// Scope key under which `linalg.yield` parks the value it yields, for the
/// region driver to read back before closing the region's scope.
pub const YIELD_KEY: &'static str = "__linalg_yield__";

/// Operand `i` of `op`, as bound in `ctx`.
pub open spec fn operand(ctx: CoreContext, op: Operation, i: int) -> Option<Value> {
    if 0 <= i < op.operands@.len() {
        ctx.lookup(op.operands@[i]@)
    } else {
        None
    }
}

/// Operand `i` of `op`, when it is bound to a tile.
pub open spec fn operand_tile(ctx: CoreContext, op: Operation, i: int) -> Option<Tile> {
    match operand(ctx, op, i) {
        Some(Value::Tile(t)) => Some(t),
        _ => None,
    }
}

/// The value bound to operand `i`.
pub fn get_operand<'c>(op: &Operation, ctx: &'c CoreContext, i: usize) -> (r: Result<&'c Value, String>)
    requires
        ctx.wf(),
    ensures
        r matches Ok(v) ==> operand(*ctx, *op, i as int) == Some(*v),
        r is Err <==> operand(*ctx, *op, i as int) is None,
{
    if i >= op.operands.len() {
        return Err(String::from_str("missing operand"));
    }
    ctx.get_value(op.operands[i].as_str())
}

/// The tile bound to operand `i`.
pub fn get_tile<'c>(op: &Operation, ctx: &'c CoreContext, i: usize) -> (r: Result<&'c Tile, String>)
    requires
        ctx.wf(),
    ensures
        r matches Ok(t) ==> operand_tile(*ctx, *op, i as int) == Some(*t),
        r is Err <==> operand_tile(*ctx, *op, i as int) is None,
{
    match get_operand(op, ctx, i)? {
        Value::Tile(t) => Ok(t),
        _ => Err(String::from_str("expected a tile operand")),
    }
}

/// A scalar or an index: what converts to `f32`.
pub open spec fn is_scalar_like(v: Value) -> bool {
    v is Scalar || v is Index
}

/// The `f32` bit pattern of the integer `x`, when `|x| < 2^24` (exactly
/// representable).
pub open spec fn exact_int_f32(x: int) -> Option<u32> {
    if 0 <= x < 0x1000000 {
        Some(small_int_f32_bits(x as nat) as u32)
    } else if -0x1000000 < x < 0 {
        Some((0x80000000 + small_int_f32_bits((-x) as nat)) as u32)
    } else {
        None
    }
}

/// The `f32` a scalar converts to, where it is known exactly: an `f32` as
/// is, a bool as 1.0 / 0.0, an integer below 2^24 in magnitude exactly.
pub open spec fn exact_f32(v: Value) -> Option<u32> {
    match v {
        Value::Scalar(Scalar::F32(b)) => Some(b),
        Value::Scalar(Scalar::I32(x)) => exact_int_f32(x as int),
        Value::Scalar(Scalar::I64(x)) => exact_int_f32(x as int),
        Value::Scalar(Scalar::Bool(b)) => Some(
            if b {
                0x3f800000u32
            } else {
                0u32
            },
        ),
        Value::Index(i) => exact_int_f32(i as int),
        _ => None,
    }
}

/// `x` as an `f32` bit pattern; exact below 2^24 in magnitude, rounded by
/// the host beyond.
fn int_bits<F: FloatArith>(x: i64, floats: &F) -> (b: u32)
    ensures
        exact_int_f32(x as int) matches Some(e) ==> b == e,
{
    if 0 <= x && x < 0x1000000 {
        small_int_to_f32_bits(x as u32)
    } else if -0x1000000 < x && x < 0 {
        0x80000000u32 + small_int_to_f32_bits((-x) as u32)
    } else {
        floats.int_to_f32(x)
    }
}

/// Coerce a scalar or index to `f32`: an integer becomes the nearest `f32`, ties to even.
pub fn as_f32<F: FloatArith>(v: &Value, floats: &F) -> (r: Result<u32, String>)
    ensures
        r is Ok <==> is_scalar_like(*v),
        exact_f32(*v) matches Some(b) ==> r == Ok::<u32, String>(b),
{
    match v {
        Value::Scalar(Scalar::F32(x)) => Ok(*x),
        Value::Scalar(Scalar::I32(x)) => Ok(int_bits(*x as i64, floats)),
        Value::Scalar(Scalar::I64(x)) => Ok(int_bits(*x, floats)),
        Value::Scalar(Scalar::Bool(b)) => Ok(
            if *b {
                0x3f800000u32
            } else {
                0u32
            },
        ),
        Value::Index(i) => Ok(int_bits(*i, floats)),
        _ => Err(String::from_str("expected a scalar")),
    }
}

/// What `linalg.fill` produces from scalar `s` and outs tile `o`: `o`'s
/// shape, dtype and element count, no stick bookkeeping, and for an `f32`
/// tile every element the scalar (known exactly where [`exact_f32`] is).
pub open spec fn fill_result(t: Tile, o: Tile, s: Value) -> bool {
    &&& t.shape@ == o.shape@
    &&& t.dtype == o.dtype
    &&& t.data@.len() == o.data@.len()
    &&& t.unique_sticks is None
    &&& t.index_unique_sticks is None
    &&& o.dtype == DType::F32 ==> (forall|i: int| 0 <= i < t.data@.len() ==> #[trigger] t.data@[i] == t.data@[0])
    &&& (o.dtype == DType::F32 && exact_f32(s) is Some) ==> (forall|i: int|
        0 <= i < t.data@.len() ==> #[trigger] t.data@[i] == exact_f32(s)->0)
}

/// `%r = linalg.fill ins(%scalar) outs(%init)`: a tile like `%init` with
/// every element the scalar.
pub fn fill<F: FloatArith>(op: &Operation, ctx: &CoreContext, env: &ExecutionEnv<F>) -> (r: Result<
    Option<Value>,
    String,
>)
    requires
        ctx.wf(),
    ensures
        r is Ok <==> (operand(*ctx, *op, 0) matches Some(s) && is_scalar_like(s) && operand_tile(*ctx, *op, 1) is Some),
        r is Ok ==> (r matches Ok(Some(Value::Tile(t))) && fill_result(
            t,
            operand_tile(*ctx, *op, 1)->0,
            operand(*ctx, *op, 0)->0,
        )),
{
    let scalar = get_operand(op, ctx, 0)?;
    let v = as_f32(scalar, env.floats)?;
    let out = get_tile(op, ctx, 1)?;
    let n = out.data.len();
    let mut data: Vec<u32> = Vec::new();
    let mut i: usize = 0;
    while i < n
        invariant
            0 <= i <= n,
            data@.len() == i,
            forall|j: int| 0 <= j < i ==> #[trigger] data@[j] == v,
        decreases n - i,
    {
        data.push(v);
        i = i + 1;
    }
    let t = Tile::compute(data, out.dtype, out.shape.clone(), env.floats);
    Ok(Some(Value::Tile(t)))
}

/// `linalg.yield %v`: park `%v` under [`YIELD_KEY`] in the current scope
/// (nothing without an operand). Produces no value.
pub fn yield_op(op: &Operation, ctx: &mut CoreContext) -> (r: Result<Option<Value>, String>)
    requires
        old(ctx).wf(),
    ensures
        exec_frame(*old(ctx), *final(ctx)),
        r is Ok ==> r == Ok::<Option<Value>, String>(None),
        op.operands@.len() == 0 ==> r is Ok && *final(ctx) == *old(ctx),
        op.operands@.len() > 0 ==> (r is Ok <==> old(ctx).lookup(op.operands@[0]@) is Some),
        r is Err ==> *final(ctx) == *old(ctx),
        (r is Ok && op.operands@.len() > 0) ==> (final(ctx).lookup(YIELD_KEY@) matches Some(w) && w@
            == old(ctx).lookup(op.operands@[0]@)->0@),
{
    if op.operands.len() == 0 {
        return Ok(None);
    }
    let v = ctx.get_value(op.operands[0].as_str())?.clone();
    ctx.set_value(YIELD_KEY, v);
    proof {
        assert(ctx.scopes().last().contains_key(crate::context::normalize(YIELD_KEY@)));
    }
    Ok(None)
}

/// The `permutation` attribute of `op`, when it is an integer list.
pub open spec fn perm_attr(op: Operation) -> Option<Seq<i64>> {
    match attr_lookup(op.attributes@, "permutation"@) {
        Some(Attr::IntList(v)) => Some(v@),
        _ => None,
    }
}

/// The permutation entries as axis numbers.
pub open spec fn perm_usize(p: Seq<i64>) -> Seq<usize> {
    Seq::new(p.len(), |k: int| p[k] as usize)
}

/// `p` lists each of the axes `0..n` exactly once.
pub open spec fn is_permutation(p: Seq<i64>, n: int) -> bool {
    &&& p.len() == n
    &&& forall|k: int| 0 <= k < p.len() ==> 0 <= #[trigger] p[k] < n
    &&& forall|a: int, b: int| 0 <= a < b < p.len() ==> #[trigger] p[a] != #[trigger] p[b]
}

/// When `linalg.transpose` of tile `x` by `p` succeeds: `p` permutes `x`'s
/// axes and `x` holds exactly its shape's elements.
pub open spec fn transpose_ok(x: Tile, p: Seq<i64>) -> bool {
    &&& is_permutation(p, x.shape@.len() as int)
    &&& x.data@.len() == prod(x.shape@)
    &&& x.data@.len() == prod(permuted_shape(x.shape@, perm_usize(p)))
}

/// `%r = linalg.transpose ins(%x) outs(%y) permutation = [...]`: axis `k`
/// of the result is axis `permutation[k]` of `%x`.
pub fn transpose<F: FloatArith>(op: &Operation, ctx: &CoreContext, env: &ExecutionEnv<F>) -> (r: Result<
    Option<Value>,
    String,
>)
    requires
        ctx.wf(),
    ensures
        r is Ok <==> (operand_tile(*ctx, *op, 0) matches Some(x) && perm_attr(*op) matches Some(p)
            && transpose_ok(x, p)),
        r is Ok ==> (r matches Ok(Some(Value::Tile(t))) && {
            let x = operand_tile(*ctx, *op, 0)->0;
            let p = perm_usize(perm_attr(*op)->0);
            &&& t.shape@ == permuted_shape(x.shape@, p)
            &&& t.dtype == x.dtype
            &&& t.data@.len() == x.data@.len()
            &&& t.unique_sticks is None
            &&& t.index_unique_sticks is None
            &&& x.dtype == DType::F32 ==> t.data@ == spec_transpose(x.data@, x.shape@, p)
        }),
{
    let inp = get_tile(op, ctx, 0)?;
    let perm_i = match op.get_attr("permutation") {
        Some(Attr::IntList(v)) => v,
        _ => {
            proof {
                reveal_strlit("permutation");
            }
            return Err(String::from_str("linalg.transpose: missing permutation attribute"));
        },
    };
    proof {
        reveal_strlit("permutation");
    }
    let n = inp.shape.len();
    if perm_i.len() != n {
        return Err(String::from_str("linalg.transpose: permutation rank differs from input rank"));
    }
    let mut perm: Vec<usize> = Vec::new();
    let mut k: usize = 0;
    while k < n
        invariant
            n == inp.shape@.len(),
            perm_i@.len() == n,
            operand_tile(*ctx, *op, 0) == Some(*inp),
            perm_attr(*op) == Some(perm_i@),
            0 <= k <= n,
            perm@ == perm_usize(perm_i@).subrange(0, k as int),
            forall|q: int| 0 <= q < k ==> 0 <= #[trigger] perm_i@[q] < n,
        decreases n - k,
    {
        let pk = perm_i[k];
        if pk < 0 || pk as u64 >= n as u64 {
            return Err(String::from_str("linalg.transpose: permutation entry out of range"));
        }
        perm.push(pk as usize);
        k = k + 1;
    }
    assert(perm@ =~= perm_usize(perm_i@));
    let mut a: usize = 0;
    while a < n
        invariant
            n == perm_i@.len(),
            n == inp.shape@.len(),
            operand_tile(*ctx, *op, 0) == Some(*inp),
            perm_attr(*op) == Some(perm_i@),
            0 <= a <= n,
            forall|x: int, y: int| 0 <= x < y < n && x < a ==> #[trigger] perm_i@[x] != #[trigger] perm_i@[y],
        decreases n - a,
    {
        let mut b: usize = a + 1;
        while b < n
            invariant
                n == perm_i@.len(),
                n == inp.shape@.len(),
                operand_tile(*ctx, *op, 0) == Some(*inp),
                perm_attr(*op) == Some(perm_i@),
                0 <= a < n,
                a + 1 <= b <= n,
                forall|x: int, y: int| 0 <= x < y < n && x < a ==> #[trigger] perm_i@[x] != #[trigger] perm_i@[y],
                forall|y: int| a < y < b ==> perm_i@[a as int] != #[trigger] perm_i@[y],
            decreases n - b,
        {
            if perm_i[a] == perm_i[b] {
                return Err(String::from_str("linalg.transpose: permutation repeats an axis"));
            }
            b = b + 1;
        }
        a = a + 1;
    }
    let mut new_shape: Vec<usize> = Vec::new();
    let mut j: usize = 0;
    while j < n
        invariant
            n == inp.shape@.len(),
            perm@.len() == n,
            forall|q: int| 0 <= q < n ==> #[trigger] perm@[q] < n,
            0 <= j <= n,
            new_shape@ == permuted_shape(inp.shape@, perm@).subrange(0, j as int),
        decreases n - j,
    {
        new_shape.push(inp.shape[perm[j]]);
        j = j + 1;
    }
    assert(new_shape@ =~= permuted_shape(inp.shape@, perm@));
    let len = inp.data.len();
    proof {
        crate::shape::lemma_prod_nonneg(inp.shape@);
        crate::shape::lemma_prod_nonneg(new_shape@);
    }
    match shape_size(inp.shape.as_slice()) {
        Some(t) => {
            if t != len {
                return Err(String::from_str("linalg.transpose: tile data does not match its shape"));
            }
        },
        None => {
            return Err(String::from_str("linalg.transpose: tile data does not match its shape"));
        },
    }
    match shape_size(new_shape.as_slice()) {
        Some(t) => {
            if t != len {
                return Err(String::from_str("linalg.transpose: tile data does not match its shape"));
            }
        },
        None => {
            return Err(String::from_str("linalg.transpose: tile data does not match its shape"));
        },
    }
    let data = transpose_data(inp.data.as_slice(), inp.shape.as_slice(), perm.as_slice());
    let t = Tile::compute(data, inp.dtype, new_shape, env.floats);
    Ok(Some(Value::Tile(t)))
}

/// The `dimensions` attribute of `op` (empty when absent).
pub open spec fn dims_attr(op: Operation) -> Seq<i64> {
    match attr_lookup(op.attributes@, "dimensions"@) {
        Some(Attr::IntList(v)) => v@,
        _ => Seq::empty(),
    }
}

/// `shape` with a size-1 axis inserted at `ds[0]`, then `ds[1]`, ... up to
/// `ds[k - 1]`; `None` once an index is negative or past the end.
pub open spec fn expand_dims(shape: Seq<usize>, ds: Seq<i64>, k: int) -> Option<Seq<usize>>
    decreases k,
{
    if k <= 0 {
        Some(shape)
    } else {
        match expand_dims(shape, ds, k - 1) {
            Some(cur) => if 0 <= ds[k - 1] <= cur.len() {
                Some(cur.insert(ds[k - 1] as int, 1usize))
            } else {
                None
            },
            None => None,
        }
    }
}

proof fn lemma_expand_dims_none(shape: Seq<usize>, ds: Seq<i64>, i: int, k: int)
    requires
        0 <= i <= k,
        expand_dims(shape, ds, i) is None,
    ensures
        expand_dims(shape, ds, k) is None,
    decreases k - i,
{
    if i < k {
        lemma_expand_dims_none(shape, ds, i + 1, k);
    }
}

/// Input shape of `linalg.broadcast` after inserting its `dimensions`, in
/// ascending order.
pub open spec fn broadcast_src_shape(shape: Seq<usize>, op: Operation) -> Option<Seq<usize>> {
    let ds = dims_attr(op).sort_by(i64_le());
    expand_dims(shape, ds, ds.len() as int)
}

/// `%r = linalg.broadcast ins(%x) outs(%init) dimensions = [...]`: `%x`
/// with a size-1 axis inserted at each listed dimension, broadcast to the
/// shape of `%init`, keeping `%x`'s dtype.
pub fn broadcast<F: FloatArith>(op: &Operation, ctx: &CoreContext, env: &ExecutionEnv<F>) -> (r: Result<
    Option<Value>,
    String,
>)
    requires
        ctx.wf(),
    ensures
        r is Ok <==> (operand_tile(*ctx, *op, 0) matches Some(x) && operand_tile(*ctx, *op, 1) matches Some(o)
            && broadcast_src_shape(x.shape@, *op) matches Some(es) && spec_broadcast(x.data@, es, o.shape@)
            is Some && bcast_feasible(x.data@.len() as int, es, o.shape@)),
        r is Ok ==> (r matches Ok(Some(Value::Tile(t))) && {
            let x = operand_tile(*ctx, *op, 0)->0;
            let o = operand_tile(*ctx, *op, 1)->0;
            let b = spec_broadcast(x.data@, broadcast_src_shape(x.shape@, *op)->0, o.shape@)->0;
            &&& t.shape@ == o.shape@
            &&& t.dtype == x.dtype
            &&& t.data@.len() == b.len()
            &&& t.unique_sticks is None
            &&& t.index_unique_sticks is None
            &&& x.dtype == DType::F32 ==> t.data@ == b
        }),
{
    let inp = get_tile(op, ctx, 0)?;
    let out = get_tile(op, ctx, 1)?;
    let empty: Vec<i64> = Vec::new();
    let listed: &Vec<i64> = match op.get_attr("dimensions") {
        Some(Attr::IntList(v)) => v,
        _ => &empty,
    };
    proof {
        reveal_strlit("dimensions");
        assert(listed@ == dims_attr(*op));
    }
    let dims = sort_i64s(listed);
    let mut shape: Vec<usize> = inp.shape.clone();
    let mut i: usize = 0;
    while i < dims.len()
        invariant
            0 <= i <= dims@.len(),
            dims@ == dims_attr(*op).sort_by(i64_le()),
            operand_tile(*ctx, *op, 0) == Some(*inp),
            operand_tile(*ctx, *op, 1) == Some(*out),
            expand_dims(inp.shape@, dims@, i as int) == Some(shape@),
        decreases dims@.len() - i,
    {
        let d = dims[i];
        if d < 0 || d as u64 > shape.len() as u64 {
            proof {
                lemma_expand_dims_none(inp.shape@, dims@, i + 1, dims@.len() as int);
            }
            return Err(String::from_str("linalg.broadcast: dimension out of range"));
        }
        shape.insert(d as usize, 1);
        i = i + 1;
    }
    assert(broadcast_src_shape(inp.shape@, *op) == Some(shape@));
    if !bcast_feasible_check(inp.data.len(), shape.as_slice(), out.shape.as_slice()) {
        return Err(String::from_str("linalg.broadcast: shapes too large for the tile data"));
    }
    let data = match broadcast_to(inp.data.as_slice(), shape.as_slice(), out.shape.as_slice()) {
        Some(d) => d,
        None => {
            return Err(String::from_str("linalg.broadcast: cannot broadcast to the outs shape"));
        },
    };
    let t = Tile::compute(data, inp.dtype, out.shape.clone(), env.floats);
    Ok(Some(Value::Tile(t)))
}

/// `A @ B` for 2-D tiles is defined (`[m, k] @ [k, n]`) and the tiles hold
/// their shapes' elements, with the result's element count fitting `usize`.
pub open spec fn mm_ok(a: Tile, b: Tile) -> bool {
    &&& a.shape@.len() == 2
    &&& b.shape@.len() == 2
    &&& b.shape@[0] == a.shape@[1]
    &&& a.shape@[0] * a.shape@[1] <= a.data@.len()
    &&& b.shape@[0] * b.shape@[1] <= b.data@.len()
    &&& a.shape@[0] * b.shape@[1] <= usize::MAX
}

/// `accs` are the running sums of the host's products
/// `a[a0 + i * k + q] * b[b0 + q * n + j]` (listed in `ps`), each added with the
/// host's addition, starting from `0`: a dot product of row `i` and column
/// `j`, one step at a time.
pub open spec fn dot_chain<F: FloatArith>(
    floats: &F,
    a: Seq<u32>,
    b: Seq<u32>,
    a0: int,
    b0: int,
    i: int,
    j: int,
    k: int,
    n: int,
    accs: Seq<u32>,
    ps: Seq<u32>,
) -> bool {
    &&& accs.len() == ps.len() + 1
    &&& accs[0] == 0
    &&& forall|q: int|
        0 <= q < ps.len() ==> mulf_gives(floats, a[a0 + i * k + q], b[b0 + q * n + j], #[trigger] ps[q]) && addf_gives(
            floats,
            accs[q],
            ps[q],
            accs[q + 1],
        )
}

/// `acc` is the host's dot product of row `i` of the `[_, k]` matrix at
/// offset `a0` of `a` and column `j` of the `[k, n]` matrix at offset `b0`
/// of `b`.
pub open spec fn dot_value<F: FloatArith>(
    floats: &F,
    a: Seq<u32>,
    b: Seq<u32>,
    a0: int,
    b0: int,
    i: int,
    j: int,
    k: int,
    n: int,
    acc: u32,
) -> bool {
    exists|accs: Seq<u32>, ps: Seq<u32>|
        #[trigger] dot_chain(floats, a, b, a0, b0, i, j, k, n, accs, ps) && ps.len() == k && accs[k] == acc
}

/// Element `p` of `A @ B` (row `p / n`, column `p % n`, `n` columns): the
/// host's dot product of that row of `A` and column of `B`, rounded to
/// `A`'s dtype.
pub open spec fn mm_elem<F: FloatArith>(floats: &F, a: Tile, b: Tile, p: int, x: u32) -> bool {
    let k = a.shape@[1] as int;
    let n = b.shape@[1] as int;
    exists|acc: u32| #[trigger] dot_value(floats, a.data@, b.data@, 0, 0, p / n, p % n, k, n, acc) && rounded_to(floats, acc, a.dtype, x)
}

/// `A @ B` for 2-D tiles `[m, k]` and `[k, n]`, keeping `A`'s dtype: element
/// `(i, j)` sums `A[i, kk] * B[kk, j]` over `kk` with the host's float
/// arithmetic.
pub fn matmul2d<F: FloatArith>(a: &Tile, b: &Tile, floats: &F) -> (r: Result<Tile, String>)
    ensures
        r is Ok <==> mm_ok(*a, *b),
        r matches Ok(t) ==> {
            &&& t.shape@ == seq![a.shape@[0], b.shape@[1]]
            &&& t.data@.len() == a.shape@[0] * b.shape@[1]
            &&& t.dtype == a.dtype
            &&& t.unique_sticks is None
            &&& t.index_unique_sticks is None
            &&& forall|p: int| 0 <= p < t.data@.len() ==> mm_elem(floats, *a, *b, p, #[trigger] t.data@[p])
        },
{
    if a.shape.len() != 2 || b.shape.len() != 2 {
        return Err(String::from_str("linalg.matmul: expected 2-D operands"));
    }
    let m = a.shape[0];
    let k = a.shape[1];
    if b.shape[0] != k {
        return Err(String::from_str("linalg.matmul: inner dims disagree"));
    }
    let n = b.shape[1];
    let alen = a.data.len();
    let blen = b.data.len();
    let mk = match m.checked_mul(k) {
        Some(v) => v,
        None => {
            return Err(String::from_str("linalg.matmul: A holds fewer elements than its shape"));
        },
    };
    let kn = match k.checked_mul(n) {
        Some(v) => v,
        None => {
            return Err(String::from_str("linalg.matmul: B holds fewer elements than its shape"));
        },
    };
    let mn = match m.checked_mul(n) {
        Some(v) => v,
        None => {
            return Err(String::from_str("linalg.matmul: result too large"));
        },
    };
    if mk > a.data.len() {
        return Err(String::from_str("linalg.matmul: A holds fewer elements than its shape"));
    }
    if kn > b.data.len() {
        return Err(String::from_str("linalg.matmul: B holds fewer elements than its shape"));
    }
    let mut data: Vec<u32> = Vec::new();
    let mut i: usize = 0;
    while i < m
        invariant
            0 <= i <= m,
            m * k == mk <= a.data@.len(),
            k * n == kn <= b.data@.len(),
            m * n == mn,
            data@.len() == i * n,
            forall|p: int| 0 <= p < data@.len() ==> dot_value(floats, a.data@, b.data@, 0, 0, p / (n as int), p % (n as int), k as int, n as int, #[trigger] data@[p]),
        decreases m - i,
    {
        let mut j: usize = 0;
        while j < n
            invariant
                0 <= i < m,
                0 <= j <= n,
                m * k == mk <= a.data@.len(),
                k * n == kn <= b.data@.len(),
                m * n == mn,
                data@.len() == i * n + j,
                forall|p: int| 0 <= p < data@.len() ==> dot_value(floats, a.data@, b.data@, 0, 0, p / (n as int), p % (n as int), k as int, n as int, #[trigger] data@[p]),
            decreases n - j,
        {
            let mut acc: u32 = 0;
            let mut kk: usize = 0;
            let ghost mut accs: Seq<u32> = seq![0u32];
            let ghost mut ps: Seq<u32> = Seq::empty();
            while kk < k
                invariant
                    0 <= i < m,
                    0 <= j < n,
                    0 <= kk <= k,
                    m * k == mk <= a.data@.len(),
                    k * n == kn <= b.data@.len(),
                dot_chain(floats, a.data@, b.data@, 0, 0, i as int, j as int, k as int, n as int, accs, ps),
                    ps.len() == kk,
                    accs[kk as int] == acc,
                decreases k - kk,
            {
                proof {
                    assert(i * k + kk < m * k) by (nonlinear_arith)
                        requires
                            0 <= i < m,
                            0 <= kk < k,
                    ;
                    assert(kk * n + j < k * n) by (nonlinear_arith)
                        requires
                            0 <= kk < k,
                            0 <= j < n,
                    ;
                }
                let prod_ab = floats.mulf(a.data[i * k + kk], b.data[kk * n + j]);
                let ghost prev = acc;
                acc = floats.addf(acc, prod_ab);
                proof {
                    let accs0 = accs;
                    let ps0 = ps;
                    accs = accs.push(acc);
                    ps = ps.push(prod_ab);
                    assert forall|q: int| 0 <= q < ps.len() implies mulf_gives(floats, a.data@[0 + i * k + q], b.data@[0 + q * n + j], #[trigger] ps[q]) && addf_gives(floats, accs[q], ps[q], accs[q + 1]) by {
                        if q < ps0.len() {
                            assert(ps[q] == ps0[q] && accs[q] == accs0[q] && accs[q + 1] == accs0[q + 1]);
                        }
                    }
                }
                kk = kk + 1;
            }
            proof {
                assert(dot_chain(floats, a.data@, b.data@, 0, 0, i as int, j as int, k as int, n as int, accs, ps));
                assert(dot_value(floats, a.data@, b.data@, 0, 0, i as int, j as int, k as int, n as int, acc));
                assert(i * n + j < m * n) by (nonlinear_arith)
                    requires
                        0 <= i < m,
                        0 <= j < n,
                ;
                vstd::arithmetic::div_mod::lemma_fundamental_div_mod_converse(
                    (i * n + j) as int,
                    n as int,
                    i as int,
                    j as int,
                );
            }
            let ghost d0 = data@;
            data.push(acc);
            proof {
                assert forall|p: int| 0 <= p < data@.len() implies dot_value(floats, a.data@, b.data@, 0, 0, p / (n as int), p % (n as int), k as int, n as int, #[trigger] data@[p]) by {
                    if p < d0.len() {
                        assert(data@[p] == d0[p]);
                    }
                }
            }
            j = j + 1;
        }
        proof {
            assert(i * n + n == (i + 1) * n) by (nonlinear_arith);
        }
        i = i + 1;
    }
    let mut shape: Vec<usize> = Vec::new();
    shape.push(m);
    shape.push(n);
    assert(shape@ =~= seq![m, n]);
    let ghost raw = data@;
    let t = Tile::compute(data, a.dtype, shape, floats);
    proof {
        assert forall|p: int| 0 <= p < t.data@.len() implies mm_elem(floats, *a, *b, p, #[trigger] t.data@[p]) by {
            assert(dot_value(floats, a.data@, b.data@, 0, 0, p / (n as int), p % (n as int), k as int, n as int, raw[p]));
            assert(rounded_to(floats, raw[p], a.dtype, t.data@[p]));
        }
    }
    Ok(t)
}

/// Element-wise `r[i] += c[i]` over the common prefix of the two tiles,
/// taking `c`'s dtype (the `outs` accumulation of the matmul ops).
fn accumulate<F: FloatArith>(r: &mut Tile, c: &Tile, floats: &F)
    ensures
        forall|i: int|
            0 <= i < old(r).data@.len() ==> (if i < c.data@.len() {
                addf_gives(floats, old(r).data@[i], c.data@[i], #[trigger] final(r).data@[i])
            } else {
                final(r).data@[i] == old(r).data@[i]
            }),
        final(r).data@.len() == old(r).data@.len(),
        final(r).shape@ == old(r).shape@,
        final(r).dtype == c.dtype,
        final(r).unique_sticks == old(r).unique_sticks,
        final(r).index_unique_sticks == old(r).index_unique_sticks,
{
    let n = if r.data.len() <= c.data.len() {
        r.data.len()
    } else {
        c.data.len()
    };
    let mut i: usize = 0;
    while i < n
        invariant
            0 <= i <= n,
            n <= r.data@.len(),
            n <= c.data@.len(),
            r.data@.len() == old(r).data@.len(),
            r.shape@ == old(r).shape@,
            r.unique_sticks == old(r).unique_sticks,
            r.index_unique_sticks == old(r).index_unique_sticks,
            forall|j: int|
                0 <= j < old(r).data@.len() ==> (if j < i {
                    addf_gives(floats, old(r).data@[j], c.data@[j], #[trigger] r.data@[j])
                } else {
                    r.data@[j] == old(r).data@[j]
                }),
        decreases n - i,
    {
        let v = floats.addf(r.data[i], c.data[i]);
        r.data.set(i, v);
        i = i + 1;
    }
    r.dtype = c.dtype;
}

/// The dtype of a matmul result: the `outs` tile's when one is given, else
/// `A`'s.
pub open spec fn mm_dtype(ctx: CoreContext, op: Operation, a: Tile) -> DType {
    if op.operands@.len() > 2 && operand_tile(ctx, op, 2) is Some {
        operand_tile(ctx, op, 2)->0.dtype
    } else {
        a.dtype
    }
}

/// The `outs` tile of a matmul op: its third operand, when bound to a tile.
pub open spec fn outs_tile(ctx: CoreContext, op: Operation) -> Option<Tile> {
    if op.operands@.len() > 2 {
        operand_tile(ctx, op, 2)
    } else {
        None
    }
}

/// Element `p` of a matmul result: element `p` of `A @ B`, plus the host's
/// addition of `C`'s element `p` when an `outs` tile `C` covers it.
pub open spec fn mm_out_elem<F: FloatArith>(floats: &F, a: Tile, b: Tile, c: Option<Tile>, p: int, y: u32) -> bool {
    match c {
        Some(ct) => if p < ct.data@.len() {
            exists|x: u32| #[trigger] mm_elem(floats, a, b, p, x) && addf_gives(floats, x, ct.data@[p], y)
        } else {
            mm_elem(floats, a, b, p, y)
        },
        None => mm_elem(floats, a, b, p, y),
    }
}

/// `%r = linalg.matmul ins(%A, %B) outs(%C)`: `A @ B`, plus `C` element-wise
/// when a third operand is bound to a tile of the result's shape.
pub fn matmul<F: FloatArith>(op: &Operation, ctx: &CoreContext, env: &ExecutionEnv<F>) -> (r: Result<
    Option<Value>,
    String,
>)
    requires
        ctx.wf(),
    ensures
        r is Ok <==> (operand_tile(*ctx, *op, 0) matches Some(a) && operand_tile(*ctx, *op, 1) matches Some(b)
            && mm_ok(a, b) && (op.operands@.len() > 2 ==> (operand(*ctx, *op, 2) is Some && (operand_tile(
            *ctx,
            *op,
            2,
        ) matches Some(c) ==> c.shape@ == seq![a.shape@[0], b.shape@[1]])))),
        r is Ok ==> (r matches Ok(Some(Value::Tile(t))) && {
            let a = operand_tile(*ctx, *op, 0)->0;
            let b = operand_tile(*ctx, *op, 1)->0;
            &&& t.shape@ == seq![a.shape@[0], b.shape@[1]]
            &&& t.data@.len() == a.shape@[0] * b.shape@[1]
            &&& t.dtype == mm_dtype(*ctx, *op, a)
            &&& t.unique_sticks is None
            &&& t.index_unique_sticks is None
            &&& forall|p: int| 0 <= p < t.data@.len() ==> mm_out_elem(env.floats, a, b, outs_tile(*ctx, *op), p, #[trigger] t.data@[p])
        }),
{
    let a = get_tile(op, ctx, 0)?;
    let b = get_tile(op, ctx, 1)?;
    let mut result = matmul2d(a, b, env.floats)?;
    if op.operands.len() > 2 {
        let cv = get_operand(op, ctx, 2)?;
        if let Value::Tile(c) = cv {
            if !shape_eq(c.shape.as_slice(), result.shape.as_slice()) {
                return Err(String::from_str("linalg.matmul: outs shape differs from A @ B"));
            }
            let ghost raw = result;
            accumulate(&mut result, c, env.floats);
            proof {
                assert forall|p: int| 0 <= p < result.data@.len() implies mm_out_elem(env.floats, *a, *b, outs_tile(*ctx, *op), p, #[trigger] result.data@[p]) by {
                    assert(mm_elem(env.floats, *a, *b, p, raw.data@[p]));
                }
            }
        }
    }
    Ok(Some(Value::Tile(result)))
}

/// Element count of a rank-3 shape.
proof fn lemma_prod3(x: usize, y: usize, z: usize)
    ensures
        prod(seq![x, y, z]) == x * y * z,
{
    let s = seq![x, y, z];
    let s1 = seq![y, z];
    let s2 = seq![z];
    let s3 = Seq::<usize>::empty();
    assert(s.drop_first() =~= s1);
    assert(s1.drop_first() =~= s2);
    assert(s2.drop_first() =~= s3);
    assert(prod(s3) == 1);
    assert(prod(s2) == z * prod(s3));
    assert(prod(s1) == y * prod(s2));
    assert(prod(s) == x * prod(s1));
    assert(x * (y * (z * 1)) == x * y * z) by (nonlinear_arith);
}

/// Batched `A @ B` for 3-D tiles `[batch, m, k]` and `[batch, k, n]` is
/// defined and the tiles hold their shapes' elements, with the result's
/// element count fitting `usize`.
pub open spec fn bmm_ok(a: Tile, b: Tile) -> bool {
    &&& a.shape@.len() == 3
    &&& b.shape@.len() == 3
    &&& b.shape@[0] == a.shape@[0]
    &&& b.shape@[1] == a.shape@[2]
    &&& prod(a.shape@) <= a.data@.len()
    &&& prod(b.shape@) <= b.data@.len()
    &&& a.shape@[0] * a.shape@[1] * b.shape@[2] <= usize::MAX
}

/// `%r = linalg.batch_matmul ins(%A, %B) outs(%C)`: one `A @ B` per batch
/// entry, plus `C` element-wise (over the common prefix) when a third
/// operand is bound to a tile.
/// Element `p` of a batched product before rounding: with `[m, k]` and
/// `[k, n]` matrices per batch, the host's dot product of row
/// `(p % (m n)) / n` and column `(p % (m n)) % n` of batch `p / (m n)`.
pub open spec fn bmm_raw<F: FloatArith>(floats: &F, a: Seq<u32>, b: Seq<u32>, m: int, k: int, n: int, p: int, x: u32) -> bool {
    let bi = p / (m * n);
    let rem = p % (m * n);
    dot_value(floats, a, b, bi * (m * k), bi * (k * n), rem / n, rem % n, k, n, x)
}

/// Element `p` of `A @ B` for 3-D `A: [batch, m, k]` and `B: [batch, k, n]`,
/// rounded to `A`'s dtype.
pub open spec fn bmm_elem<F: FloatArith>(floats: &F, a: Tile, b: Tile, p: int, x: u32) -> bool {
    exists|acc: u32|
        #[trigger] bmm_raw(floats, a.data@, b.data@, a.shape@[1] as int, a.shape@[2] as int, b.shape@[2] as int, p, acc)
            && rounded_to(floats, acc, a.dtype, x)
}

/// Element `p` of a batch matmul result: element `p` of the batched
/// product, plus the host's addition of `C`'s element `p` when an `outs`
/// tile `C` covers it.
pub open spec fn bmm_out_elem<F: FloatArith>(floats: &F, a: Tile, b: Tile, c: Option<Tile>, p: int, y: u32) -> bool {
    match c {
        Some(ct) => if p < ct.data@.len() {
            exists|x: u32| #[trigger] bmm_elem(floats, a, b, p, x) && addf_gives(floats, x, ct.data@[p], y)
        } else {
            bmm_elem(floats, a, b, p, y)
        },
        None => bmm_elem(floats, a, b, p, y),
    }
}

pub fn batch_matmul<F: FloatArith>(op: &Operation, ctx: &CoreContext, env: &ExecutionEnv<F>) -> (r: Result<
    Option<Value>,
    String,
>)
    requires
        ctx.wf(),
    ensures
        r is Ok <==> (operand_tile(*ctx, *op, 0) matches Some(a) && operand_tile(*ctx, *op, 1) matches Some(b)
            && bmm_ok(a, b) && (op.operands@.len() > 2 ==> operand(*ctx, *op, 2) is Some)),
        r is Ok ==> (r matches Ok(Some(Value::Tile(t))) && {
            let a = operand_tile(*ctx, *op, 0)->0;
            let b = operand_tile(*ctx, *op, 1)->0;
            &&& t.shape@ == seq![a.shape@[0], a.shape@[1], b.shape@[2]]
            &&& t.data@.len() == a.shape@[0] * a.shape@[1] * b.shape@[2]
            &&& t.dtype == mm_dtype(*ctx, *op, a)
            &&& t.unique_sticks is None
            &&& t.index_unique_sticks is None
            &&& forall|p: int| 0 <= p < t.data@.len() ==> bmm_out_elem(env.floats, a, b, outs_tile(*ctx, *op), p, #[trigger] t.data@[p])
        }),
{
    let a = get_tile(op, ctx, 0)?;
    let b = get_tile(op, ctx, 1)?;
    if a.shape.len() != 3 || b.shape.len() != 3 {
        return Err(String::from_str("linalg.batch_matmul: expected 3-D operands"));
    }
    let batch = a.shape[0];
    let m = a.shape[1];
    let k = a.shape[2];
    if b.shape[0] != batch || b.shape[1] != k {
        return Err(String::from_str("linalg.batch_matmul: incompatible shapes"));
    }
    let n = b.shape[2];
    let alen = a.data.len();
    let blen = b.data.len();
    proof {
        assert(a.shape@ =~= seq![batch, m, k]);
        assert(b.shape@ =~= seq![batch, k, n]);
        lemma_prod3(batch, m, k);
        lemma_prod3(batch, k, n);
        crate::shape::lemma_prod_nonneg(a.shape@);
        crate::shape::lemma_prod_nonneg(b.shape@);
    }
    match shape_size(a.shape.as_slice()) {
        Some(sz) => {
            if sz > alen {
                return Err(String::from_str("linalg.batch_matmul: A holds fewer elements than its shape"));
            }
        },
        None => {
            return Err(String::from_str("linalg.batch_matmul: A holds fewer elements than its shape"));
        },
    }
    match shape_size(b.shape.as_slice()) {
        Some(sz) => {
            if sz > blen {
                return Err(String::from_str("linalg.batch_matmul: B holds fewer elements than its shape"));
            }
        },
        None => {
            return Err(String::from_str("linalg.batch_matmul: B holds fewer elements than its shape"));
        },
    }
    let mut shape: Vec<usize> = Vec::new();
    shape.push(batch);
    shape.push(m);
    shape.push(n);
    assert(shape@ =~= seq![batch, m, n]);
    proof {
        lemma_prod3(batch, m, n);
        crate::shape::lemma_prod_nonneg(shape@);
    }
    match shape_size(shape.as_slice()) {
        Some(_) => {},
        None => {
            return Err(String::from_str("linalg.batch_matmul: result too large"));
        },
    }
    let mut data: Vec<u32> = Vec::new();
    if batch > 0 {
        proof {
            assert(m * k <= batch * m * k && k * n <= batch * k * n && m * n <= batch * m * n)
                by (nonlinear_arith)
                requires
                    batch >= 1,
                    m >= 0,
                    k >= 0,
                    n >= 0,
            ;
            assert(batch * (m * k) == batch * m * k && batch * (k * n) == batch * k * n && batch * (m * n)
                == batch * m * n) by (nonlinear_arith);
        }
        let mk = m * k;
        let kn = k * n;
        let mn = m * n;
        let mut bi: usize = 0;
        while bi < batch
            invariant
                0 <= bi <= batch,
                m * k == mk,
                k * n == kn,
                m * n == mn,
                a.data@.len() <= usize::MAX,
                b.data@.len() <= usize::MAX,
                batch * mk <= a.data@.len(),
                batch * kn <= b.data@.len(),
                batch * mn <= usize::MAX,
                data@.len() == bi * mn,
                k == a.shape@[2],
                n == b.shape@[2],
                m == a.shape@[1],
                forall|p: int| 0 <= p < data@.len() ==> bmm_raw(env.floats, a.data@, b.data@, m as int, k as int, n as int, p, #[trigger] data@[p]),
            decreases batch - bi,
        {
            proof {
                assert(bi * mk + mk <= batch * mk) by (nonlinear_arith)
                    requires
                        0 <= bi < batch,
                        mk >= 0,
                ;
                assert(bi * kn + kn <= batch * kn) by (nonlinear_arith)
                    requires
                        0 <= bi < batch,
                        kn >= 0,
                ;
                assert(bi * mn + mn <= batch * mn) by (nonlinear_arith)
                    requires
                        0 <= bi < batch,
                        mn >= 0,
                ;
            }
            let a_off = bi * mk;
            let b_off = bi * kn;
            let mut i: usize = 0;
            while i < m
                invariant
                    0 <= bi < batch,
                    0 <= i <= m,
                    a.data@.len() <= usize::MAX,
                    b.data@.len() <= usize::MAX,
                    m * k == mk,
                    k * n == kn,
                    m * n == mn,
                    a_off + mk <= a.data@.len(),
                    b_off + kn <= b.data@.len(),
                    data@.len() == bi * mn + i * n,
                    bi * mn + mn <= batch * mn,
                    a_off == bi * mk,
                    b_off == bi * kn,
                    k == a.shape@[2],
                    n == b.shape@[2],
                    m == a.shape@[1],
                    forall|p: int| 0 <= p < data@.len() ==> bmm_raw(env.floats, a.data@, b.data@, m as int, k as int, n as int, p, #[trigger] data@[p]),
                decreases m - i,
            {
                let mut j: usize = 0;
                while j < n
                    invariant
                        0 <= i < m,
                        0 <= j <= n,
                        a.data@.len() <= usize::MAX,
                        b.data@.len() <= usize::MAX,
                        m * k == mk,
                        k * n == kn,
                        m * n == mn,
                        a_off + mk <= a.data@.len(),
                        b_off + kn <= b.data@.len(),
                        data@.len() == bi * mn + i * n + j,
                        bi * mn + mn <= batch * mn,
                        a_off == bi * mk,
                        b_off == bi * kn,
                        k == a.shape@[2],
                        n == b.shape@[2],
                        m == a.shape@[1],
                        forall|p: int| 0 <= p < data@.len() ==> bmm_raw(env.floats, a.data@, b.data@, m as int, k as int, n as int, p, #[trigger] data@[p]),
                    decreases n - j,
                {
                    let mut acc: u32 = 0;
                    let mut kk: usize = 0;
                    let ghost mut accs: Seq<u32> = seq![0u32];
                    let ghost mut ps: Seq<u32> = Seq::empty();
                    while kk < k
                        invariant
                            0 <= i < m,
                            0 <= j < n,
                            0 <= kk <= k,
                            m * k == mk,
                            k * n == kn,
                            a.data@.len() <= usize::MAX,
                            b.data@.len() <= usize::MAX,
                            a_off + mk <= a.data@.len(),
                            dot_chain(env.floats, a.data@, b.data@, a_off as int, b_off as int, i as int, j as int, k as int, n as int, accs, ps),
                            ps.len() == kk,
                            accs[kk as int] == acc,
                            b_off + kn <= b.data@.len(),
                        decreases k - kk,
                    {
                        proof {
                            assert(i * k + kk < m * k) by (nonlinear_arith)
                                requires
                                    0 <= i < m,
                                    0 <= kk < k,
                            ;
                            assert(kk * n + j < k * n) by (nonlinear_arith)
                                requires
                                    0 <= kk < k,
                                    0 <= j < n,
                            ;
                        }
                        let prod_ab = env.floats.mulf(a.data[a_off + i * k + kk], b.data[b_off + kk * n + j]);
                        acc = env.floats.addf(acc, prod_ab);
                        proof {
                            let accs0 = accs;
                            let ps0 = ps;
                            accs = accs.push(acc);
                            ps = ps.push(prod_ab);
                            assert forall|q: int| 0 <= q < ps.len() implies mulf_gives(env.floats, a.data@[a_off + i * k + q], b.data@[b_off + q * n + j], #[trigger] ps[q]) && addf_gives(env.floats, accs[q], ps[q], accs[q + 1]) by {
                                if q < ps0.len() {
                                    assert(ps[q] == ps0[q] && accs[q] == accs0[q] && accs[q + 1] == accs0[q + 1]);
                                }
                            }
                        }
                        kk = kk + 1;
                    }
                    proof {
                        assert(i * n + j < m * n) by (nonlinear_arith)
                            requires
                                0 <= i < m,
                                0 <= j < n,
                        ;
                        assert(dot_value(env.floats, a.data@, b.data@, a_off as int, b_off as int, i as int, j as int, k as int, n as int, acc));
                        let pp = bi * mn + i * n + j;
                        vstd::arithmetic::div_mod::lemma_fundamental_div_mod_converse(pp as int, mn as int, bi as int, (i * n + j) as int);
                        vstd::arithmetic::div_mod::lemma_fundamental_div_mod_converse((i * n + j) as int, n as int, i as int, j as int);
                        assert(bmm_raw(env.floats, a.data@, b.data@, m as int, k as int, n as int, pp as int, acc));
                    }
                    let ghost d0 = data@;
                    data.push(acc);
                    proof {
                        assert forall|p: int| 0 <= p < data@.len() implies bmm_raw(env.floats, a.data@, b.data@, m as int, k as int, n as int, p, #[trigger] data@[p]) by {
                            if p < d0.len() {
                                assert(data@[p] == d0[p]);
                            }
                        }
                    }
                    j = j + 1;
                }
                proof {
                    assert(i * n + n == (i + 1) * n) by (nonlinear_arith);
                }
                i = i + 1;
            }
            proof {
                assert(bi * mn + mn == (bi + 1) * mn) by (nonlinear_arith);
            }
            bi = bi + 1;
        }
        proof {
            assert(batch * mn == batch * m * n) by (nonlinear_arith)
                requires
                    mn == m * n,
            ;
        }
    } else {
        proof {
            assert(batch * m * n == 0) by (nonlinear_arith)
                requires
                    batch == 0,
            ;
        }
    }
    let ghost raw = data@;
    let mut result = Tile::compute(data, a.dtype, shape, env.floats);
    proof {
        assert forall|p: int| 0 <= p < result.data@.len() implies bmm_elem(env.floats, *a, *b, p, #[trigger] result.data@[p]) by {
            assert(bmm_raw(env.floats, a.data@, b.data@, m as int, k as int, n as int, p, raw[p]));
            assert(rounded_to(env.floats, raw[p], a.dtype, result.data@[p]));
        }
    }
    if op.operands.len() > 2 {
        let cv = get_operand(op, ctx, 2)?;
        if let Value::Tile(c) = cv {
            let ghost before = result;
            accumulate(&mut result, c, env.floats);
            proof {
                assert forall|p: int| 0 <= p < result.data@.len() implies bmm_out_elem(env.floats, *a, *b, outs_tile(*ctx, *op), p, #[trigger] result.data@[p]) by {
                    assert(bmm_elem(env.floats, *a, *b, p, before.data@[p]));
                }
            }
        }
    }
    Ok(Some(Value::Tile(result)))
}

// ---------------------------------------------------------------------------
// Regions: block arguments, body ops and the yielded value.
// ---------------------------------------------------------------------------

/// The parser's block-argument marker op, skipped when a region runs.
pub open spec fn is_bb0_marker(o: Operation) -> bool {
    o.op_type@ == "region.bb0_args"@
}

/// Index of the first op at or after `i` in `region` that is not a marker.
pub open spec fn first_body_from(region: Seq<Operation>, i: int) -> Option<int>
    decreases region.len() - i,
{
    if i < 0 || i >= region.len() {
        None
    } else if !is_bb0_marker(region[i]) {
        Some(i)
    } else {
        first_body_from(region, i + 1)
    }
}

/// The first non-marker op of `op`'s first region.
pub open spec fn first_body_op(op: Operation) -> Option<Operation> {
    if op.regions@.len() == 0 {
        None
    } else {
        match first_body_from(op.regions@[0]@, 0) {
            Some(i) => Some(op.regions@[0]@[i]),
            None => None,
        }
    }
}

/// Block-argument names of a linalg op's region: the `bb0_names` attribute,
/// else the operands of the region's first non-marker op, else none.
pub open spec fn spec_bb0_names(op: Operation) -> Seq<Seq<char>> {
    match attr_lookup(op.attributes@, "bb0_names"@) {
        Some(Attr::StrList(v)) => strings_view(v@),
        _ => match first_body_op(op) {
            Some(o) => strings_view(o.operands@),
            None => Seq::empty(),
        },
    }
}

fn is_marker(o: &Operation) -> (b: bool)
    ensures
        b == is_bb0_marker(*o),
{
    crate::text::str_eq(o.op_type.as_str(), "region.bb0_args")
}

/// Index of the first non-marker op of `op`'s first region.
pub fn first_body_index(op: &Operation) -> (r: Option<usize>)
    ensures
        op.regions@.len() == 0 ==> r is None,
        r matches Some(i) ==> op.regions@.len() > 0 && i < op.regions@[0]@.len(),
        op.regions@.len() > 0 ==> match r {
            Some(i) => first_body_from(op.regions@[0]@, 0) == Some(i as int),
            None => first_body_from(op.regions@[0]@, 0) is None,
        },
{
    if op.regions.len() == 0 {
        return None;
    }
    let region = &op.regions[0];
    let mut i: usize = 0;
    while i < region.len()
        invariant
            op.regions@.len() > 0,
            *region == op.regions@[0],
            0 <= i <= region@.len(),
            first_body_from(region@, 0) == first_body_from(region@, i as int),
        decreases region@.len() - i,
    {
        if !is_marker(&region[i]) {
            return Some(i);
        }
        i = i + 1;
    }
    None
}

fn clone_strings(v: &Vec<String>) -> (r: Vec<String>)
    ensures
        strings_view(r@) == strings_view(v@),
{
    let mut r: Vec<String> = Vec::new();
    let mut i: usize = 0;
    while i < v.len()
        invariant
            0 <= i <= v@.len(),
            r@.len() == i,
            forall|j: int| 0 <= j < i ==> #[trigger] r@[j]@ == v@[j]@,
        decreases v@.len() - i,
    {
        r.push(v[i].clone());
        i = i + 1;
    }
    assert(strings_view(r@) =~= strings_view(v@));
    r
}

/// See [`spec_bb0_names`].
pub fn bb0_names(op: &Operation) -> (r: Vec<String>)
    ensures
        strings_view(r@) == spec_bb0_names(*op),
{
    proof {
        reveal_strlit("bb0_names");
    }
    match op.get_attr("bb0_names") {
        Some(Attr::StrList(v)) => clone_strings(v),
        _ => match first_body_index(op) {
            Some(i) => clone_strings(&op.regions[0][i].operands),
            None => {
                let r: Vec<String> = Vec::new();
                assert(strings_view(r@) =~= Seq::<Seq<char>>::empty());
                r
            },
        },
    }
}

/// The value parked under [`YIELD_KEY`], if any scope holds one.
fn read_yield(ctx: &CoreContext) -> (r: Option<Value>)
    requires
        ctx.wf(),
    ensures
        r is Some <==> ctx.lookup(YIELD_KEY@) is Some,
        r matches Some(v) ==> v@ == ctx.lookup(YIELD_KEY@)->0@,
{
    match ctx.get_value(YIELD_KEY) {
        Ok(v) => Some(v.clone()),
        Err(_) => None,
    }
}

/// Run the non-marker ops of `op`'s first region in order, stopping at the
/// first error (the caller owns the region's scope).
fn run_body<F: FloatArith>(op: &Operation, ctx: &mut CoreContext, env: &ExecutionEnv<F>) -> (r: Result<(), String>)
    requires
        old(ctx).wf(),
        env.dispatch.wf(),
    ensures
        exec_frame(*old(ctx), *final(ctx)),
        (op.regions@.len() == 0 || forall|i: int| 0 <= i < op.regions@[0]@.len() ==> is_bb0_marker(
            #[trigger] op.regions@[0]@[i],
        )) ==> r is Ok && *final(ctx) == *old(ctx),
        r is Ok && op.regions@.len() > 0 ==> forall|i: int|
            0 <= i < op.regions@[0]@.len() && !is_bb0_marker(#[trigger] op.regions@[0]@[i])
                ==> env.dispatch.handler_map().contains_key(op.regions@[0]@[i].op_type@),
    decreases op, 1int,
{
    if op.regions.len() == 0 {
        return Ok(());
    }
    let mut i: usize = 0;
    while i < op.regions[0].len()
        invariant
            op.regions@.len() > 0,
            0 <= i <= op.regions@[0]@.len(),
            env.dispatch.wf(),
            exec_frame(*old(ctx), *ctx),
            (forall|j: int| 0 <= j < i ==> is_bb0_marker(#[trigger] op.regions@[0]@[j])) ==> *ctx == *old(ctx),
            forall|j: int|
                0 <= j < i && !is_bb0_marker(#[trigger] op.regions@[0]@[j])
                    ==> env.dispatch.handler_map().contains_key(op.regions@[0]@[j].op_type@),
        decreases op.regions@[0]@.len() - i,
    {
        if !is_marker(&op.regions[0][i]) {
            proof {
                vstd::std_specs::vec::axiom_vec_decreases_to_view(op.regions);
                vstd::std_specs::vec::axiom_vec_decreases_to_view(op.regions@[0]);
                assert(decreases_to!(*op => op.regions));
                assert(decreases_to!(op.regions => op.regions@));
                assert(decreases_to!(op.regions@ => op.regions@[0]));
                assert(decreases_to!(op.regions@[0] => op.regions@[0]@));
                assert(decreases_to!(op.regions@[0]@ => op.regions@[0]@[i as int]));
            }
            execute_op(&op.regions[0][i], ctx, env)?;
            assert(env.dispatch.handler_map().get(op.regions@[0]@[i as int].op_type@) is Some);
        }
        i = i + 1;
    }
    Ok(())
}

// ---------------------------------------------------------------------------
// linalg.reduce
// ---------------------------------------------------------------------------

/// The `dim` attribute of a `linalg.reduce` (absent: reduce everything).
pub open spec fn reduce_dim(op: Operation) -> Option<i64> {
    match attr_lookup(op.attributes@, "dim"@) {
        Some(Attr::Int(d)) => Some(d),
        _ => None,
    }
}

/// Shape left by the fold: the folded axis (axis 0 of the flattened data
/// when reducing everything) drops to extent 1, or stays 0 when empty.
pub open spec fn fold_shape(x: Tile, dim: Option<usize>, s: Seq<usize>) -> bool {
    let start = match dim {
        None => seq![x.data@.len() as usize],
        Some(_) => x.shape@,
    };
    let axis: int = match dim {
        None => 0,
        Some(d) => d as int,
    };
    s == start.update(
        axis,
        if start[axis] == 0 {
            0usize
        } else {
            1usize
        },
    )
}

/// What `linalg.reduce` of tile `x` returns: an `f32` scalar when reducing
/// everything or a rank-1 tile, else a tile of `x`'s dtype without the
/// reduced axis.
pub open spec fn reduce_result(x: Tile, dim: Option<i64>, res: Value) -> bool {
    match dim {
        None => res matches Value::Scalar(Scalar::F32(_)),
        Some(d) => if x.shape@.len() == 1 {
            res matches Value::Scalar(Scalar::F32(_))
        } else {
            res matches Value::Tile(t) && t.shape@ == x.shape@.remove(d as int) && t.dtype == x.dtype
                && t.unique_sticks is None && t.index_unique_sticks is None
        },
    }
}

/// Bind the two halves to the combiner's block arguments, run the combiner
/// (`op`'s region, or the one-op shorthand `shorthand` over the synthetic
/// block arguments), and return what it yielded.
fn combine_in_scope<F: FloatArith>(
    op: &Operation,
    names: &Vec<String>,
    shorthand: &Option<String>,
    lhs: Tile,
    rhs: Tile,
    ctx: &mut CoreContext,
    env: &ExecutionEnv<F>,
) -> (r: Result<Value, String>)
    requires
        old(ctx).wf(),
        env.dispatch.wf(),
    ensures
        exec_frame(*old(ctx), *final(ctx)),
        r matches Ok(v) ==> (final(ctx).lookup(YIELD_KEY@) matches Some(w) && w@ == v@),
    decreases op, 2int,
{
    if names.len() > 0 {
        ctx.set_value(names[0].as_str(), Value::Tile(lhs));
    }
    if names.len() > 1 {
        ctx.set_value(names[1].as_str(), Value::Tile(rhs));
    }
    match shorthand {
        Some(f) => {
            let combine = Operation::new(
                Some("__reduce_combined__"),
                f.as_str(),
                &["__reduce_in__", "__reduce_acc__"],
            );
            execute_leaf_op(&combine, ctx, env)?;
            let done = Operation::new(None, "linalg.yield", &["__reduce_combined__"]);
            execute_leaf_op(&done, ctx, env)?;
        },
        None => {
            run_body(op, ctx, env)?;
        },
    }
    match read_yield(ctx) {
        Some(v) => Ok(v),
        None => Err(String::from_str("linalg.reduce: combiner region did not yield")),
    }
}

/// Run the combiner once on two equal-shaped halves in a scope of its own.
fn run_combiner<F: FloatArith>(
    op: &Operation,
    names: &Vec<String>,
    shorthand: &Option<String>,
    lhs: Tile,
    rhs: Tile,
    ctx: &mut CoreContext,
    env: &ExecutionEnv<F>,
) -> (r: Result<Value, String>)
    requires
        old(ctx).wf(),
        env.dispatch.wf(),
    ensures
        exec_frame(*old(ctx), *final(ctx)),
    decreases op, 3int,
{
    ctx.push_scope();
    let outcome = combine_in_scope(op, names, shorthand, lhs, rhs, ctx, env);
    ctx.pop_scope();
    outcome
}

/// Reduce `tile` along `dim` (everything, flattened, when `None`) by
/// folding the combiner pairwise: split the axis in half, combine the halves
/// with one region run, carry an odd leftover slice into the next round.
/// Returns the data and the shape, whose folded axis has extent 1 (0 when
/// it was empty).
fn tree_fold<F: FloatArith>(
    op: &Operation,
    tile: &Tile,
    dim: Option<usize>,
    names: &Vec<String>,
    shorthand: &Option<String>,
    ctx: &mut CoreContext,
    env: &ExecutionEnv<F>,
) -> (r: Result<(Vec<u32>, Vec<usize>), String>)
    requires
        old(ctx).wf(),
        env.dispatch.wf(),
    ensures
        exec_frame(*old(ctx), *final(ctx)),
        r matches Ok(p) ==> fold_shape(*tile, dim, p.1@),
        (dim matches Some(d) && d >= tile.shape@.len()) ==> r is Err,
        (match dim {
            None => tile.data@.len() <= 1,
            Some(d) => d < tile.shape@.len() && tile.shape@[d as int] <= 1,
        }) ==> (r matches Ok(p) && p.0@ == tile.data@),
    decreases op, 4int,
{
    let mut acc: Vec<u32> = tile.data.clone();
    let mut shape: Vec<usize> = Vec::new();
    let axis: usize = match dim {
        None => {
            shape.push(tile.data.len());
            0
        },
        Some(d) => {
            if d >= tile.shape.len() {
                return Err(String::from_str("linalg.reduce: dim out of range"));
            }
            shape = tile.shape.clone();
            d
        },
    };
    let ghost start = shape@;
    assert(start == (match dim {
        None => seq![tile.data@.len() as usize],
        Some(_) => tile.shape@,
    }));
    let mut n = shape[axis];
    while n > 1
        invariant
            axis < start.len(),
            start.len() == shape@.len(),
            n == shape@[axis as int],
            shape@ == start.update(axis as int, n),
            start[axis as int] == 0 ==> n == 0,
            start[axis as int] > 0 ==> n >= 1,
            env.dispatch.wf(),
            exec_frame(*old(ctx), *ctx),
            (match dim {
                None => tile.data@.len() <= 1,
                Some(d) => d < tile.shape@.len() && tile.shape@[d as int] <= 1,
            }) ==> n <= 1 && acc@ == tile.data@,
        decreases n,
    {
        proof {
            crate::shape::lemma_prod_nonneg(shape@);
        }
        match shape_size(shape.as_slice()) {
            Some(p) => {
                if p > acc.len() {
                    return Err(String::from_str("linalg.reduce: combiner result smaller than its shape"));
                }
            },
            None => {
                return Err(String::from_str("linalg.reduce: shape too large"));
            },
        }
        let half = n / 2;
        let (left, ls) = slice_along(acc.as_slice(), shape.as_slice(), axis, 0, half);
        let (right, rs) = slice_along(acc.as_slice(), shape.as_slice(), axis, half, 2 * half);
        let lt = Tile::compute(left, tile.dtype, ls.clone(), env.floats);
        let rt = Tile::compute(right, tile.dtype, rs, env.floats);
        let combined = run_combiner(op, names, shorthand, lt, rt, ctx, env)?;
        let mut cdata: Vec<u32> = match combined {
            Value::Tile(t) => t.data,
            Value::Scalar(sc) => {
                let v = as_f32(&Value::Scalar(sc), env.floats)?;
                let mut one: Vec<u32> = Vec::new();
                one.push(v);
                one
            },
            _ => {
                return Err(String::from_str("linalg.reduce: combiner yielded neither a tile nor a scalar"));
            },
        };
        let mut cshape = ls;
        if n % 2 == 1 {
            let (tail, _tail_shape) = slice_along(acc.as_slice(), shape.as_slice(), axis, 2 * half, n);
            if !concat_feasible_check(cdata.len(), cshape.as_slice(), tail.len(), axis) {
                return Err(String::from_str("linalg.reduce: combiner result does not match its halves"));
            }
            cdata = concat_along(cdata.as_slice(), cshape.as_slice(), tail.as_slice(), axis);
            let grown = cshape[axis] + 1;
            cshape.set(axis, grown);
        }
        acc = cdata;
        shape = cshape;
        n = shape[axis];
        assert(shape@ =~= start.update(axis as int, n));
    }
    assert(start.update(axis as int, n) =~= start.update(
        axis as int,
        if start[axis as int] == 0 {
            0usize
        } else {
            1usize
        },
    ));
    Ok((acc, shape))
}

/// `%r = linalg.reduce ins(%x) outs(%init) dimensions = [d] { combiner }`:
/// fold `%x` along `dim` (everything when absent) with the combiner region,
/// or with the one-op shorthand named by `reduce_fn` (default `arith.addf`)
/// when the op has no region body. A non-tile input is passed through. The
/// result is also bound under the `outs_var` name when one is given.
pub fn reduce<F: FloatArith>(op: &Operation, ctx: &mut CoreContext, env: &ExecutionEnv<F>) -> (r: Result<
    Option<Value>,
    String,
>)
    requires
        old(ctx).wf(),
        env.dispatch.wf(),
    ensures
        exec_frame(*old(ctx), *final(ctx)),
        operand(*old(ctx), *op, 0) is None ==> r is Err,
        operand(*old(ctx), *op, 0) matches Some(v) ==> (!(v is Tile) ==> (r matches Ok(Some(w)) && w@ == v@
            && *final(ctx) == *old(ctx))),
        (operand_tile(*old(ctx), *op, 0) matches Some(x) && reduce_dim(*op) matches Some(d) && !(0 <= d
            < x.shape@.len())) ==> r is Err,
        operand_tile(*old(ctx), *op, 0) matches Some(x) ==> (r is Ok ==> (r matches Ok(Some(res))
            && reduce_result(x, reduce_dim(*op), res) && (attr_lookup(op.attributes@, "outs_var"@) matches Some(
            Attr::Str(v),
        ) ==> (final(ctx).lookup(v@) matches Some(w) && w@ == res@)))),
    decreases op, 5int,
{
    let tile: Tile = match get_operand(op, ctx, 0)? {
        Value::Tile(t) => t.clone(),
        other => {
            return Ok(Some(other.clone()));
        },
    };
    let dim: Option<usize> = match op.get_attr("dim") {
        Some(Attr::Int(d)) => {
            if *d < 0 || *d as u64 >= tile.shape.len() as u64 {
                proof {
                    reveal_strlit("dim");
                }
                return Err(String::from_str("linalg.reduce: dim out of range"));
            }
            Some(*d as usize)
        },
        _ => None,
    };
    proof {
        reveal_strlit("dim");
        assert(dim matches Some(d) ==> reduce_dim(*op) == Some(d as i64));
        assert(dim is None ==> reduce_dim(*op) is None);
    }
    let (names, shorthand): (Vec<String>, Option<String>) = match first_body_index(op) {
        Some(_) => (bb0_names(op), None),
        None => {
            let f = match op.get_attr("reduce_fn") {
                Some(Attr::Str(s)) => s.clone(),
                _ => String::from_str("arith.addf"),
            };
            let mut syn: Vec<String> = Vec::new();
            syn.push(String::from_str("__reduce_in__"));
            syn.push(String::from_str("__reduce_acc__"));
            (syn, Some(f))
        },
    };
    let (folded, folded_shape) = tree_fold(op, &tile, dim, &names, &shorthand, ctx, env)?;
    if folded.len() == 0 {
        return Err(String::from_str("linalg.reduce: nothing to reduce"));
    }
    let result = match dim {
        None => Value::Scalar(Scalar::F32(folded[0])),
        Some(d) => {
            let mut reduced = folded_shape;
            reduced.remove(d);
            if reduced.len() == 0 {
                Value::Scalar(Scalar::F32(folded[0]))
            } else {
                assert(reduced@ =~= tile.shape@.remove(d as int));
                Value::Tile(Tile::compute(folded, tile.dtype, reduced, env.floats))
            }
        },
    };
    proof {
        reveal_strlit("outs_var");
    }
    if let Some(Attr::Str(outs_var)) = op.get_attr("outs_var") {
        ctx.set_value(outs_var.as_str(), result.clone());
        proof {
            assert(ctx.scopes().last().contains_key(crate::context::normalize(outs_var@)));
        }
    }
    Ok(Some(result))
}

// ---------------------------------------------------------------------------
// linalg.generic
// ---------------------------------------------------------------------------

/// Pieces of `s[start..]` split at each `,` from position `i` on.
pub open spec fn comma_pieces(s: Seq<char>, start: int, i: int) -> Seq<Seq<char>>
    decreases s.len() - i,
{
    if i >= s.len() {
        seq![s.subrange(start, s.len() as int)]
    } else if s[i] == ',' {
        seq![s.subrange(start, i)] + comma_pieces(s, i + 1, i + 1)
    } else {
        comma_pieces(s, start, i + 1)
    }
}

/// The pieces that read as a `usize` once trimmed, in order.
pub open spec fn dims_of_pieces(pieces: Seq<Seq<char>>) -> Seq<usize>
    decreases pieces.len(),
{
    if pieces.len() == 0 {
        Seq::empty()
    } else {
        let rest = dims_of_pieces(pieces.drop_last());
        match crate::parser::usize_lit(trimmed(pieces.last())) {
            Some(v) => rest.push(v as usize),
            None => rest,
        }
    }
}

/// An indexing map written as a comma-separated list of the output
/// dimensions an input uses (`"0,1"`); pieces that are not numbers are
/// skipped.
pub open spec fn spec_map_dims(s: Seq<char>) -> Seq<usize> {
    dims_of_pieces(comma_pieces(s, 0, 0))
}

/// See [`spec_map_dims`].
pub fn map_dims(s: &str) -> (r: Vec<usize>)
    ensures
        r@ == spec_map_dims(s@),
{
    let cs = crate::text::str_to_chars(s);
    let mut out: Vec<usize> = Vec::new();
    let ghost mut done: Seq<Seq<char>> = Seq::empty();
    let mut start: usize = 0;
    let mut i: usize = 0;
    while i < cs.len()
        invariant
            cs@ == s@,
            0 <= start <= i <= cs@.len(),
            comma_pieces(cs@, 0, 0) == done + comma_pieces(cs@, start as int, i as int),
            out@ == dims_of_pieces(done),
        decreases cs@.len() - i,
    {
        if cs[i] == ',' {
            let piece = slice_chars(&cs, start, i);
            let t = trim(&piece);
            proof {
                assert(dims_of_pieces(done.push(piece@)).len() >= 0);
                assert(done.push(piece@).drop_last() =~= done);
                assert(comma_pieces(cs@, start as int, i as int) == seq![piece@] + comma_pieces(
                    cs@,
                    i + 1,
                    i + 1,
                ));
                assert(done + comma_pieces(cs@, start as int, i as int) =~= done.push(piece@) + comma_pieces(
                    cs@,
                    i + 1,
                    i + 1,
                ));
                done = done.push(piece@);
            }
            match crate::parser::parse_usize_lit(&t) {
                Some(v) => out.push(v),
                None => {},
            }
            start = i + 1;
        }
        i = i + 1;
    }
    let piece = slice_chars(&cs, start, cs.len());
    let t = trim(&piece);
    proof {
        assert(done.push(piece@).drop_last() =~= done);
        assert(done + comma_pieces(cs@, start as int, i as int) =~= done.push(piece@));
        done = done.push(piece@);
    }
    match crate::parser::parse_usize_lit(&t) {
        Some(v) => out.push(v),
        None => {},
    }
    out
}

/// The `indexing_maps` attribute: per input, the output dimensions its map
/// uses (empty when absent).
pub open spec fn spec_indexing_maps(op: Operation) -> Seq<Seq<usize>> {
    match attr_lookup(op.attributes@, "indexing_maps"@) {
        Some(Attr::StrList(v)) => Seq::new(v@.len(), |i: int| spec_map_dims(v@[i]@)),
        _ => Seq::empty(),
    }
}

/// See [`spec_indexing_maps`].
pub fn indexing_maps(op: &Operation) -> (r: Vec<Vec<usize>>)
    ensures
        r@.len() == spec_indexing_maps(*op).len(),
        forall|i: int| 0 <= i < r@.len() ==> #[trigger] r@[i]@ == spec_indexing_maps(*op)[i],
{
    proof {
        reveal_strlit("indexing_maps");
    }
    let mut r: Vec<Vec<usize>> = Vec::new();
    match op.get_attr("indexing_maps") {
        Some(Attr::StrList(v)) => {
            let mut i: usize = 0;
            while i < v.len()
                invariant
                    0 <= i <= v@.len(),
                    r@.len() == i,
                    forall|j: int| 0 <= j < i ==> #[trigger] r@[j]@ == spec_map_dims(v@[j]@),
                decreases v@.len() - i,
            {
                r.push(map_dims(v[i].as_str()));
                i = i + 1;
            }
        },
        _ => {},
    }
    r
}

/// Whether `v` lists `d`.
fn lists(v: &Vec<usize>, d: usize) -> (b: bool)
    ensures
        b == v@.contains(d),
{
    let mut i: usize = 0;
    while i < v.len()
        invariant
            0 <= i <= v@.len(),
            forall|j: int| 0 <= j < i ==> v@[j] != d,
        decreases v@.len() - i,
    {
        if v[i] == d {
            assert(v@[i as int] == d);
            return true;
        }
        i = i + 1;
    }
    false
}

/// The `n_ins` attribute of a `linalg.generic` (0 when absent).
pub open spec fn generic_n_ins(op: Operation) -> int {
    match attr_lookup(op.attributes@, "n_ins"@) {
        Some(Attr::Int(n)) => n as int,
        _ => 0,
    }
}

/// Broadcast one `linalg.generic` input to the iteration shape: with an
/// indexing map, a size-1 axis goes in for each output dimension the map
/// does not use; without one, plain right-aligned broadcasting.
fn generic_input<F: FloatArith>(val: &Value, imap: &Vec<usize>, out_shape: &Vec<usize>, floats: &F) -> (r:
    Result<Value, String>)
    ensures
        !(val is Tile) ==> (r matches Ok(v) && v@ == val@),
        val matches Value::Tile(t) ==> (r matches Ok(v) ==> (v matches Value::Tile(u) && u.shape@ == out_shape@
            && u.dtype == t.dtype)),
{
    match val {
        Value::Tile(t) => {
            let mut shape: Vec<usize> = t.shape.clone();
            if imap.len() > 0 {
                let mut d: usize = 0;
                while d < out_shape.len()
                    invariant
                        0 <= d <= out_shape@.len(),
                    decreases out_shape@.len() - d,
                {
                    if !lists(imap, d) && d <= shape.len() {
                        shape.insert(d, 1);
                    }
                    d = d + 1;
                }
            }
            if !bcast_feasible_check(t.data.len(), shape.as_slice(), out_shape.as_slice()) {
                return Err(String::from_str("linalg.generic: input too large for its data"));
            }
            let data = match broadcast_to(t.data.as_slice(), shape.as_slice(), out_shape.as_slice()) {
                Some(d) => d,
                None => {
                    return Err(String::from_str("linalg.generic: cannot broadcast an input"));
                },
            };
            Ok(Value::Tile(Tile::compute(data, t.dtype, out_shape.clone(), floats)))
        },
        other => Ok(other.clone()),
    }
}

/// Bind the iteration shape, the broadcast inputs and the `outs` value to
/// the block arguments, run the region body, and return what it yielded.
fn generic_in_scope<F: FloatArith>(
    op: &Operation,
    ins_vals: &Vec<Value>,
    maps: &Vec<Vec<usize>>,
    outs: &Tile,
    names: &Vec<String>,
    ctx: &mut CoreContext,
    env: &ExecutionEnv<F>,
) -> (r: Result<Option<Value>, String>)
    requires
        old(ctx).wf(),
        env.dispatch.wf(),
    ensures
        exec_frame(*old(ctx), *final(ctx)),
        r matches Ok(x) ==> (x is Some <==> final(ctx).lookup(YIELD_KEY@) is Some),
        r matches Ok(Some(v)) ==> v@ == final(ctx).lookup(YIELD_KEY@)->0@,
    decreases op, 2int,
{
    let mut dims_v: Vec<Value> = Vec::new();
    let mut k: usize = 0;
    while k < outs.shape.len()
        invariant
            0 <= k <= outs.shape@.len(),
        decreases outs.shape@.len() - k,
    {
        dims_v.push(Value::Index(outs.shape[k] as i64));
        k = k + 1;
    }
    ctx.set_value(SHAPE_KEY, Value::Tuple(dims_v));
    let empty: Vec<usize> = Vec::new();
    let mut i: usize = 0;
    while i < ins_vals.len()
        invariant
            0 <= i <= ins_vals@.len(),
            env.dispatch.wf(),
            exec_frame(*old(ctx), *ctx),
        decreases ins_vals@.len() - i,
    {
        let imap: &Vec<usize> = if i < maps.len() {
            &maps[i]
        } else {
            &empty
        };
        let arg = generic_input(&ins_vals[i], imap, &outs.shape, env.floats)?;
        if i < names.len() {
            ctx.set_value(names[i].as_str(), arg);
        }
        i = i + 1;
    }
    let n_ins = ins_vals.len();
    if n_ins < names.len() {
        let init = Tile::compute(outs.data.clone(), outs.dtype, outs.shape.clone(), env.floats);
        ctx.set_value(names[n_ins].as_str(), Value::Tile(init));
    }
    run_body(op, ctx, env)?;
    Ok(read_yield(ctx))
}

/// `%r = linalg.generic ins(...) outs(%init) { ^bb0(...): body }`: bind each
/// input, broadcast to the `outs` iteration space per its indexing map, and
/// the `outs` value to the block arguments, run the body once over the
/// whole arrays, and broadcast the yielded value back to the `outs` shape
/// and dtype.
pub fn generic<F: FloatArith>(op: &Operation, ctx: &mut CoreContext, env: &ExecutionEnv<F>) -> (r: Result<
    Option<Value>,
    String,
>)
    requires
        old(ctx).wf(),
        env.dispatch.wf(),
    ensures
        exec_frame(*old(ctx), *final(ctx)),
        spec_bb0_names(*op).len() == 0 ==> r is Err,
        r is Ok ==> ({
            let n = generic_n_ins(*op);
            &&& 0 <= n < op.operands@.len()
            &&& forall|i: int| 0 <= i < n ==> (#[trigger] operand(*old(ctx), *op, i)) is Some
            &&& operand_tile(*old(ctx), *op, n) is Some
            &&& r matches Ok(Some(Value::Tile(t)))
            &&& t.shape@ == operand_tile(*old(ctx), *op, n)->0.shape@
            &&& t.dtype == operand_tile(*old(ctx), *op, n)->0.dtype
            &&& t.unique_sticks is None
            &&& t.index_unique_sticks is None
        }),
    decreases op, 5int,
{
    proof {
        reveal_strlit("n_ins");
    }
    let n_ins: usize = match op.get_attr("n_ins") {
        Some(Attr::Int(n)) => {
            if *n < 0 || *n as u64 >= op.operands.len() as u64 {
                return Err(String::from_str("linalg.generic: n_ins leaves no outs operand"));
            }
            *n as usize
        },
        _ => 0,
    };
    if n_ins >= op.operands.len() {
        return Err(String::from_str("linalg.generic: missing outs operand"));
    }
    let maps = indexing_maps(op);
    let mut ins_vals: Vec<Value> = Vec::new();
    let mut i: usize = 0;
    while i < n_ins
        invariant
            0 <= i <= n_ins < op.operands@.len(),
            ctx.wf(),
            n_ins == generic_n_ins(*op),
            forall|j: int| 0 <= j < i ==> (#[trigger] operand(*ctx, *op, j)) is Some,
        decreases n_ins - i,
    {
        let v = get_operand(op, ctx, i)?;
        ins_vals.push(v.clone());
        i = i + 1;
    }
    let outs: Tile = get_tile(op, ctx, n_ins)?.clone();
    let names = bb0_names(op);
    if names.len() == 0 {
        return Err(String::from_str("linalg.generic: cannot determine bb0 argument names"));
    }
    ctx.push_scope();
    let outcome = generic_in_scope(op, &ins_vals, &maps, &outs, &names, ctx, env);
    ctx.pop_scope();
    let yielded = outcome?;
    let out_tile = match yielded {
        Some(Value::Tile(t)) => {
            if !bcast_feasible_check(t.data.len(), t.shape.as_slice(), outs.shape.as_slice()) {
                return Err(String::from_str("linalg.generic: yielded tile too large for its data"));
            }
            let data = match broadcast_to(t.data.as_slice(), t.shape.as_slice(), outs.shape.as_slice()) {
                Some(d) => d,
                None => {
                    return Err(String::from_str("linalg.generic: yield shape not broadcastable to outs"));
                },
            };
            Tile::compute(data, outs.dtype, outs.shape.clone(), env.floats)
        },
        Some(other) => {
            let v = as_f32(&other, env.floats)?;
            let total = match shape_size(outs.shape.as_slice()) {
                Some(t) => t,
                None => {
                    return Err(String::from_str("linalg.generic: outs shape too large"));
                },
            };
            let mut data: Vec<u32> = Vec::new();
            let mut j: usize = 0;
            while j < total
                invariant
                    0 <= j <= total,
                    data@.len() == j,
                decreases total - j,
            {
                data.push(v);
                j = j + 1;
            }
            Tile::compute(data, outs.dtype, outs.shape.clone(), env.floats)
        },
        None => {
            return Err(String::from_str("linalg.generic: region did not yield"));
        },
    };
    Ok(Some(Value::Tile(out_tile)))
}

} // verus!
