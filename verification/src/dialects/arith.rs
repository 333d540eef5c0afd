//! `arith` dialect: `constant`, `addf`, `mulf`, `addi`. Float ops work
//! element-wise on tiles or on scalars.

use vstd::prelude::*;
use super::{Dispatch, Handler, LatencyCategory};
use crate::context::CoreContext;
use crate::dtypes::DType;
use crate::env::{ExecutionEnv, FloatArith};
use crate::ir::{Attr, Operation, Scalar, Tile, Value, attr_lookup, spec_scalar_i64};

verus! {

/// Register every handler this dialect owns.
pub fn register(d: &mut Dispatch)
    requires
        old(d).wf(),
    ensures
        final(d).wf(),
        final(d).handler_map() == old(d).handler_map().insert("arith.constant"@, Handler::ArithConstant)
            .insert("arith.addf"@, Handler::ArithAddf).insert("arith.mulf"@, Handler::ArithMulf).insert(
            "arith.addi"@,
            Handler::ArithAddi,
        ),
        final(d).latency_map() == old(d).latency_map().insert("arith.constant"@, LatencyCategory::Zero)
            .insert("arith.addf"@, LatencyCategory::ComputeFloat).insert(
            "arith.mulf"@,
            LatencyCategory::ComputeFloat,
        ).insert("arith.addi"@, LatencyCategory::ComputeInt),
{
    d.register("arith.constant", LatencyCategory::Zero, Handler::ArithConstant);
    d.register("arith.addf", LatencyCategory::ComputeFloat, Handler::ArithAddf);
    d.register("arith.mulf", LatencyCategory::ComputeFloat, Handler::ArithMulf);
    d.register("arith.addi", LatencyCategory::ComputeInt, Handler::ArithAddi);
}

/// The integer carried by an integer scalar or an index.
pub open spec fn int_operand(v: Value) -> Option<i64> {
    match v {
        Value::Scalar(s) => spec_scalar_i64(s),
        Value::Index(i) => Some(i),
        _ => None,
    }
}

/// The bound values of an op's two operands, when it has exactly two and
/// both are bound.
pub open spec fn two_values(ctx: CoreContext, op: Operation) -> Option<(Value, Value)> {
    if op.operands@.len() != 2 {
        None
    } else {
        match (ctx.lookup(op.operands@[0]@), ctx.lookup(op.operands@[1]@)) {
            (Some(a), Some(b)) => Some((a, b)),
            _ => None,
        }
    }
}

/// What `arith.addi` computes: the sum of two integer operands, when it fits.
pub open spec fn addi_result(ctx: CoreContext, op: Operation) -> Option<i64> {
    match two_values(ctx, op) {
        Some((a, b)) => match (int_operand(a), int_operand(b)) {
            (Some(x), Some(y)) => if i64::MIN <= x + y <= i64::MAX {
                Some((x + y) as i64)
            } else {
                None
            },
            _ => None,
        },
        None => None,
    }
}

/// The value `arith.constant` binds for a `value` attribute, for every
/// attribute kind but a float literal.
pub open spec fn constant_result(a: Option<Attr>) -> Option<Value> {
    match a {
        Some(Attr::Int(i)) => Some(Value::Scalar(Scalar::I64(i))),
        Some(Attr::Bool(b)) => Some(Value::Scalar(Scalar::Bool(b))),
        _ => None,
    }
}

fn err(msg: &str) -> (e: String)
    ensures
        e@ == msg@,
{
    String::from_str(msg)
}

fn two_operands<'c>(op: &Operation, ctx: &'c CoreContext) -> (r: Result<(&'c Value, &'c Value), String>)
    requires
        ctx.wf(),
    ensures
        r matches Ok(p) ==> two_values(*ctx, *op) == Some((*p.0, *p.1)),
        r is Err <==> two_values(*ctx, *op) is None,
{
    if op.operands.len() != 2 {
        let mut m = String::from_str("expected 2 operands, got ");
        m.append(&crate::text::usize_to_decimal(op.operands.len()));
        return Err(m);
    }
    let a = ctx.get_value(op.operands[0].as_str())?;
    let b = ctx.get_value(op.operands[1].as_str())?;
    Ok((a, b))
}

fn scalar_i64(v: &Value) -> (r: Result<i64, String>)
    ensures
        r matches Ok(i) ==> int_operand(*v) == Some(i),
        r is Err <==> int_operand(*v) is None,
{
    match v {
        Value::Scalar(s) => match s.as_i64() {
            Some(i) => Ok(i),
            None => Err(err("non-int scalar")),
        },
        Value::Index(i) => Ok(*i),
        _ => Err(err("expected scalar/index operand")),
    }
}

/// `%c = arith.constant <value>`: the value carried in the `value` attribute.
/// A float literal is converted by the host's float parser.
pub fn constant<F: FloatArith>(op: &Operation, ctx: &CoreContext, env: &ExecutionEnv<F>) -> (r: Result<
    Option<Value>,
    String,
>)
    ensures
        attr_lookup(op.attributes@, "value"@) matches Some(Attr::Float(_)) ==> (r is Ok ==> r matches Ok(
            Some(Value::Scalar(Scalar::F32(_))),
        )),
        !(attr_lookup(op.attributes@, "value"@) matches Some(Attr::Float(_))) ==> {
            &&& r is Ok <==> constant_result(attr_lookup(op.attributes@, "value"@)) is Some
            &&& r is Ok ==> r == Ok::<Option<Value>, String>(
                constant_result(attr_lookup(op.attributes@, "value"@)),
            )
        },
{
    match op.get_attr("value") {
        None => Err(err("arith.constant missing 'value' attribute")),
        Some(Attr::Float(text)) => match env.floats.parse_f32(text.as_str()) {
            Some(bits) => Ok(Some(Value::Scalar(Scalar::F32(bits)))),
            None => {
                let mut m = String::from_str("arith.constant: bad float literal ");
                m.append(text.as_str());
                Err(m)
            },
        },
        Some(Attr::Int(i)) => Ok(Some(Value::Scalar(Scalar::I64(*i)))),
        Some(Attr::Bool(b)) => Ok(Some(Value::Scalar(Scalar::Bool(*b)))),
        Some(_) => Err(err("arith.constant: bad value attr")),
    }
}

/// `arith.addi`: the sum of two integer (or index) operands, as an `i64`
/// scalar. An overflowing sum is an error.
pub fn addi(op: &Operation, ctx: &CoreContext) -> (r: Result<Option<Value>, String>)
    requires
        ctx.wf(),
    ensures
        r is Ok <==> addi_result(*ctx, *op) is Some,
        r matches Ok(v) ==> v == Some(Value::Scalar(Scalar::I64(addi_result(*ctx, *op)->0))),
{
    let (a, b) = two_operands(op, ctx)?;
    let x = scalar_i64(a)?;
    let y = scalar_i64(b)?;
    match x.checked_add(y) {
        Some(s) => Ok(Some(Value::Scalar(Scalar::I64(s)))),
        None => Err(err("arith.addi: integer overflow")),
    }
}

/// Which float operation a binary float op performs.
#[derive(Clone, Copy, Debug, PartialEq, Eq, Structural)]
pub enum FloatOp {
    Add,
    Mul,
}

/// Result dtype of an element-wise float op: `f16` if either side is.
pub open spec fn float_result_dtype(a: DType, b: DType) -> DType {
    if a == DType::F16 || b == DType::F16 {
        DType::F16
    } else {
        DType::F32
    }
}

/// Float binary op accepting scalar + scalar (both `f32`) or tile + tile
/// (same shape, element-wise). The result tile has `f16` dtype if either
/// operand does, else `f32`, and no stick bookkeeping.
pub fn binary_float<F: FloatArith>(op: &Operation, ctx: &CoreContext, env: &ExecutionEnv<F>, which: FloatOp) -> (r:
    Result<Option<Value>, String>)
    requires
        ctx.wf(),
    ensures
        r is Ok ==> two_values(*ctx, *op) is Some,
        r is Ok ==> match two_values(*ctx, *op)->0 {
            (Value::Scalar(Scalar::F32(_)), Value::Scalar(Scalar::F32(_))) => r matches Ok(
                Some(Value::Scalar(Scalar::F32(_))),
            ),
            (Value::Tile(x), Value::Tile(y)) => (r matches Ok(Some(Value::Tile(t))) && {
                &&& x.shape@ == y.shape@
                &&& t.shape@ == x.shape@
                &&& t.dtype == float_result_dtype(x.dtype, y.dtype)
                &&& t.data@.len() == (if x.data@.len() <= y.data@.len() {
                    x.data@.len()
                } else {
                    y.data@.len()
                })
                &&& t.unique_sticks is None
                &&& t.index_unique_sticks is None
            }),
            _ => false,
        },
        two_values(*ctx, *op) matches Some(p) ==> (match p {
            (Value::Scalar(Scalar::F32(_)), Value::Scalar(Scalar::F32(_))) => r is Ok,
            (Value::Tile(x), Value::Tile(y)) => r is Ok <==> x.shape@ == y.shape@,
            _ => r is Err,
        }),
{
    let (a, b) = two_operands(op, ctx)?;
    match (a, b) {
        (Value::Scalar(Scalar::F32(x)), Value::Scalar(Scalar::F32(y))) => {
            let v = match which {
                FloatOp::Add => env.floats.addf(*x, *y),
                FloatOp::Mul => env.floats.mulf(*x, *y),
            };
            Ok(Some(Value::Scalar(Scalar::F32(v))))
        },
        (Value::Tile(x), Value::Tile(y)) => {
            if !crate::shape::usize_vec_eq(&x.shape, &y.shape) {
                return Err(err("shape mismatch"));
            }
            let n = if x.data.len() <= y.data.len() {
                x.data.len()
            } else {
                y.data.len()
            };
            let half = x.dtype == DType::F16 || y.dtype == DType::F16;
            let mut data: Vec<u32> = Vec::new();
            let mut i: usize = 0;
            while i < n
                invariant
                    0 <= i <= n,
                    n <= x.data@.len(),
                    n <= y.data@.len(),
                    data@.len() == i,
                decreases n - i,
            {
                let v = match which {
                    FloatOp::Add => env.floats.addf(x.data[i], y.data[i]),
                    FloatOp::Mul => env.floats.mulf(x.data[i], y.data[i]),
                };
                let v = if half {
                    env.floats.round_to_dtype(v, DType::F16)
                } else {
                    v
                };
                data.push(v);
                i = i + 1;
            }
            let dtype = if half {
                DType::F16
            } else {
                DType::F32
            };
            Ok(
                Some(
                    Value::Tile(
                        Tile {
                            data,
                            dtype,
                            shape: x.shape.clone(),
                            unique_sticks: None,
                            index_unique_sticks: None,
                        },
                    ),
                ),
            )
        },
        _ => Err(err("operand kinds not both f32 scalars or both tiles")),
    }
}

/// `arith.addf`: see [`binary_float`].
pub fn addf<F: FloatArith>(op: &Operation, ctx: &CoreContext, env: &ExecutionEnv<F>) -> (r: Result<
    Option<Value>,
    String,
>)
    requires
        ctx.wf(),
    ensures
        two_values(*ctx, *op) matches Some(p) ==> (match p {
            (Value::Scalar(Scalar::F32(_)), Value::Scalar(Scalar::F32(_))) => r matches Ok(
                Some(Value::Scalar(Scalar::F32(_))),
            ),
            (Value::Tile(x), Value::Tile(y)) => (r is Ok <==> x.shape@ == y.shape@) && (r is Ok
                ==> (r matches Ok(Some(Value::Tile(t))) && t.shape@ == x.shape@ && t.dtype
                == float_result_dtype(x.dtype, y.dtype))),
            _ => r is Err,
        }),
        two_values(*ctx, *op) is None ==> r is Err,
{
    binary_float(op, ctx, env, FloatOp::Add)
}

/// `arith.mulf`: see [`binary_float`].
pub fn mulf<F: FloatArith>(op: &Operation, ctx: &CoreContext, env: &ExecutionEnv<F>) -> (r: Result<
    Option<Value>,
    String,
>)
    requires
        ctx.wf(),
    ensures
        two_values(*ctx, *op) matches Some(p) ==> (match p {
            (Value::Scalar(Scalar::F32(_)), Value::Scalar(Scalar::F32(_))) => r matches Ok(
                Some(Value::Scalar(Scalar::F32(_))),
            ),
            (Value::Tile(x), Value::Tile(y)) => (r is Ok <==> x.shape@ == y.shape@) && (r is Ok
                ==> (r matches Ok(Some(Value::Tile(t))) && t.shape@ == x.shape@ && t.dtype
                == float_result_dtype(x.dtype, y.dtype))),
            _ => r is Err,
        }),
        two_values(*ctx, *op) is None ==> r is Err,
{
    binary_float(op, ctx, env, FloatOp::Mul)
}

} // verus!
