//! Execution driver: dispatch one op to its handler and bind its result
//! (tracking the LX a tile result occupies), run straight-line op lists, and
//! set up a single-core context.

use vstd::prelude::*;
use crate::context::CoreContext;
use crate::dialects::{Handler, arith, func, linalg, scf};
use crate::env::{ExecutionEnv, FloatArith};
use crate::context::{normalize, stack_lookup};
use crate::ir::{Attr, Operation, Scalar, Value, attr_lookup, spec_tile_bytes};
use crate::memory::SpyreMemoryHierarchy;

verus! {

/// What every op execution keeps: the context stays well formed, nested
/// scopes are closed again, and the core's identity and memory layout are
/// unchanged.
pub open spec fn exec_frame(before: CoreContext, after: CoreContext) -> bool {
    &&& after.wf()
    &&& after.scopes().len() == before.scopes().len()
    &&& after.core_id == before.core_id
    &&& after.grid_pos == before.grid_pos
    &&& after.mem.lx_scratchpads@.len() == before.mem.lx_scratchpads@.len()
}

/// The SSA scopes after binding `v` to `op`'s result name in the innermost
/// scope; unchanged when the op has no result name.
pub open spec fn bind_scopes(scopes: Seq<Map<Seq<char>, Value>>, op: Operation, v: Value) -> Seq<
    Map<Seq<char>, Value>,
> {
    match op.result {
        Some(name) => scopes.update(scopes.len() - 1, scopes.last().insert(normalize(name@), v)),
        None => scopes,
    }
}

/// How binding a produced value changes the context: a scalar or index is
/// bound and nothing else changes; a tile bound to a result name also takes
/// its bytes of this core's LX, and is refused when they do not fit.
pub open spec fn binds_as(before: CoreContext, after: CoreContext, op: Operation, v: Value, ok: bool) -> bool {
    if (v is Tile) && (op.result is Some) {
        let size = spec_tile_bytes(v->Tile_0);
        &&& ok <==> (size <= i64::MAX && before.local_lx().used + size <= before.local_lx().capacity)
        &&& ok ==> {
            &&& after.local_lx().used == before.local_lx().used + size
            &&& after.lx_sizes() == before.lx_sizes().insert(normalize(op.result->0@), size as i64)
        }
    } else {
        &&& ok
        &&& (v is Scalar || v is Index) ==> after.scopes() == bind_scopes(before.scopes(), op, v)
        &&& after.local_lx() == before.local_lx()
        &&& after.lx_sizes() == before.lx_sizes()
    }
}

/// A scalar or an index is determined by its view.
pub proof fn lemma_plain_view_eq(a: Value, b: Value)
    requires
        a@ == b@,
    ensures
        (b is Scalar || b is Index) ==> a == b,
{
    match a {
        Value::Scalar(_) => {},
        Value::Index(_) => {},
        Value::Tile(_) => {},
        Value::Tuple(_) => {},
    }
}

/// `res` is what the handler `h`, one that leaves the context alone, may
/// return for `op` in `ctx`: the outcome its own contract allows.
pub open spec fn handler_gives<'a, F: FloatArith>(
    h: Handler,
    op: Operation,
    ctx: CoreContext,
    env: ExecutionEnv<'a, F>,
    res: Result<Option<Value>, String>,
) -> bool {
    match h {
        Handler::ArithConstant => call_ensures(arith::constant::<F>, (&op, &ctx, &env), res),
        Handler::ArithAddf => call_ensures(arith::addf::<F>, (&op, &ctx, &env), res),
        Handler::ArithMulf => call_ensures(arith::mulf::<F>, (&op, &ctx, &env), res),
        Handler::ArithAddi => call_ensures(arith::addi, (&op, &ctx), res),
        Handler::FuncReturn => call_ensures(func::ret, (), res),
        Handler::ScfYield => call_ensures(scf::scf_yield, (&op, &ctx), res),
        Handler::LinalgMatmul => call_ensures(linalg::matmul::<F>, (&op, &ctx, &env), res),
        Handler::LinalgBatchMatmul => call_ensures(linalg::batch_matmul::<F>, (&op, &ctx, &env), res),
        Handler::LinalgTranspose => call_ensures(linalg::transpose::<F>, (&op, &ctx, &env), res),
        Handler::LinalgBroadcast => call_ensures(linalg::broadcast::<F>, (&op, &ctx, &env), res),
        Handler::LinalgFill => call_ensures(linalg::fill::<F>, (&op, &ctx, &env), res),
        Handler::LinalgIndex => call_ensures(linalg::index, (&op, &ctx), res),
        _ => false,
    }
}

/// How executing `op` ends once its handler returned `res`: a handler error
/// is passed on with the context untouched; a produced value is bound to the
/// op's result name (see [`binds_as`]), an op with a result name that
/// produced nothing fails, and an op without one leaves the context alone.
pub open spec fn bind_outcome(
    op: Operation,
    before: CoreContext,
    after: CoreContext,
    res: Result<Option<Value>, String>,
    r: Result<Option<Value>, String>,
) -> bool {
    match res {
        Err(e) => r == Err::<Option<Value>, String>(e) && after == before,
        Ok(p) => {
            &&& r is Ok ==> r == Ok::<Option<Value>, String>(p)
            &&& (op.result is None || (p matches Some(v) && !(v is Tile))) ==> r == Ok::<Option<Value>, String>(p)
            &&& (op.result is Some && p is None) ==> r is Err
            &&& p matches Some(v) ==> binds_as(before, after, op, v, r is Ok)
            &&& op.result is None ==> after == before
        },
    }
}

/// What executing `op` may do to the context `before`, ending in `after`
/// with result `r`: the context stays well framed; an op with no handler
/// fails and changes nothing; a handler that leaves the context alone
/// returns what its contract allows, which is then bound; a success binds
/// the op's result name to the value produced.
pub open spec fn op_outcome<'a, F: FloatArith>(
    env: ExecutionEnv<'a, F>,
    before: CoreContext,
    op: Operation,
    after: CoreContext,
    r: Result<Option<Value>, String>,
) -> bool {
    let hm = env.dispatch.handler_map();
    &&& exec_frame(before, after)
    &&& hm.get(op.op_type@) is None ==> r is Err && after == before
    &&& (hm.get(op.op_type@) matches Some(h) && keeps_ctx(h)) ==> exists|res: Result<Option<Value>, String>|
        #[trigger] handler_gives(hm[op.op_type@], op, before, env, res) && bind_outcome(op, before, after, res, r)
    &&& r matches Ok(v) ==> (op.result matches Some(name) ==> (v matches Some(val) && (after.lookup(name@) matches Some(
        w,
    ) && w@ == val@)))
}

/// Op `j` of `ops` succeeds, taking context `cs[j]` to `cs[j + 1]`.
pub open spec fn step_ok<'a, F: FloatArith>(env: ExecutionEnv<'a, F>, ops: Seq<Operation>, cs: Seq<CoreContext>, j: int) -> bool {
    exists|v: Option<Value>| #[trigger] op_outcome(env, cs[j], ops[j], cs[j + 1], Ok(v))
}

/// `cs` is the sequence of contexts running `ops` in order passes through,
/// each op taking one context to the next as [`op_outcome`] allows, until
/// the first failure, which ends the run with its error.
pub open spec fn ops_trace<'a, F: FloatArith>(
    env: ExecutionEnv<'a, F>,
    ops: Seq<Operation>,
    cs: Seq<CoreContext>,
    r: Result<(), String>,
) -> bool {
    match r {
        Ok(_) => {
            &&& cs.len() == ops.len() + 1
            &&& forall|j: int| 0 <= j < ops.len() ==> #[trigger] step_ok(env, ops, cs, j)
        },
        Err(e) => {
            &&& 2 <= cs.len() <= ops.len() + 1
            &&& forall|j: int| 0 <= j < cs.len() - 2 ==> #[trigger] step_ok(env, ops, cs, j)
            &&& op_outcome(env, cs[cs.len() - 2], ops[cs.len() - 2], cs.last(), Err(e))
        },
    }
}

/// Bind what a handler produced to `op`'s result name, recording the LX a
/// tile occupies; an op with a result name must produce a value.
fn bind_produced(op: &Operation, produced: Option<Value>, ctx: &mut CoreContext) -> (r: Result<
    Option<Value>,
    String,
>)
    requires
        old(ctx).wf(),
    ensures
        exec_frame(*old(ctx), *final(ctx)),
        r is Ok ==> r == Ok::<Option<Value>, String>(produced),
        op.result is None ==> r == Ok::<Option<Value>, String>(produced) && *final(ctx) == *old(ctx),
        (op.result is Some && produced is None) ==> r is Err,
        (produced matches Some(v) && !(v is Tile)) ==> r == Ok::<Option<Value>, String>(produced),
        produced matches Some(v) ==> binds_as(*old(ctx), *final(ctx), *op, v, r is Ok),
        r matches Ok(v) ==> (op.result matches Some(name) ==> (v matches Some(val) && (final(ctx).lookup(
            name@,
        ) matches Some(w) && w@ == val@))),
{
    match &op.result {
        Some(name) => match produced {
            Some(val) => {
                if let Value::Tile(t) = &val {
                    let size = match t.checked_size_bytes() {
                        Some(b) => b,
                        None => {
                            return Err(String::from_str("tile too large for LX accounting"));
                        },
                    };
                    ctx.track_lx(name.as_str(), size)?;
                }
                let bound = val.clone();
                proof {
                    lemma_plain_view_eq(bound, val);
                }
                ctx.set_value(name.as_str(), bound);
                proof {
                    assert(ctx.scopes().last().contains_key(crate::context::normalize(name@)));
                }
                Ok(Some(val))
            },
            None => {
                let mut m = String::from_str("op '");
                m.append(op.op_type.as_str());
                m.append("' has result ");
                m.append(name.as_str());
                m.append(" but produced no value");
                Err(m)
            },
        },
        None => Ok(produced),
    }
}

/// Execute one operation: look up its handler, run it, and bind the produced
/// value to the op's result name (recording the LX a tile occupies).
pub fn execute_op<F: FloatArith>(op: &Operation, ctx: &mut CoreContext, env: &ExecutionEnv<F>) -> (r:
    Result<Option<Value>, String>)
    requires
        old(ctx).wf(),
        env.dispatch.wf(),
    ensures
        exec_frame(*old(ctx), *final(ctx)),
        env.dispatch.handler_map().get(op.op_type@) is None ==> r is Err && *final(ctx) == *old(ctx),
        env.dispatch.handler_map().get(op.op_type@) is None ==> (r matches Err(m) && m@ == "no handler registered for op '"@
            + op.op_type@ + "'"@),
        op_outcome(*env, *old(ctx), *op, *final(ctx), r),
        // a handler that leaves the context alone: its outcome, then the binding
        (env.dispatch.handler_map().get(op.op_type@) matches Some(h) && keeps_ctx(h)) ==> exists|
            res: Result<Option<Value>, String>,
        |
            #[trigger] handler_gives(
                env.dispatch.handler_map()[op.op_type@],
                *op,
                *old(ctx),
                *env,
                res,
            ) && bind_outcome(*op, *old(ctx), *final(ctx), res, r),
        r matches Ok(v) ==> (op.result matches Some(name) ==> (v matches Some(val) && (final(ctx).lookup(
            name@,
        ) matches Some(w) && w@ == val@))),
        (env.dispatch.handler_map().get(op.op_type@) == Some(Handler::FuncReturn) && op.result is Some) ==> r is Err,
        (env.dispatch.handler_map().get(op.op_type@) == Some(Handler::ScfYield) && op.result is None) ==> ({
            &&& r is Ok <==> scf::all_bound(*old(ctx), *op)
            &&& *final(ctx) == *old(ctx)
            &&& r is Ok ==> (r->Ok_0 matches Some(Value::Tuple(vals)) && vals@.len() == op.operands@.len()
                && forall|i: int|
                0 <= i < vals@.len() ==> #[trigger] vals@[i]@ == old(ctx).lookup(op.operands@[i]@)->0@)
        }),
        (env.dispatch.handler_map().get(op.op_type@) matches Some(h) && keeps_ctx(h) && r is Ok && r->Ok_0 is Some)
            ==> binds_as(*old(ctx), *final(ctx), *op, r->Ok_0->Some_0, true),
        env.dispatch.handler_map().get(op.op_type@) == Some(Handler::ArithAddi) ==> ((r is Ok <==> arith::addi_result(
            *old(ctx),
            *op,
        ) is Some) && (r is Ok ==> r == Ok::<Option<Value>, String>(
            Some(Value::Scalar(Scalar::I64(arith::addi_result(*old(ctx), *op)->0))),
        ))),
        (env.dispatch.handler_map().get(op.op_type@) == Some(Handler::ArithConstant) && !(attr_lookup(
            op.attributes@,
            "value"@,
        ) matches Some(Attr::Float(_)))) ==> ((r is Ok <==> arith::constant_result(
            attr_lookup(op.attributes@, "value"@),
        ) is Some) && (r is Ok ==> r == Ok::<Option<Value>, String>(
            arith::constant_result(attr_lookup(op.attributes@, "value"@)),
        ))),
    decreases op, 6int,
{
    let h = match env.dispatch.handler(op.op_type.as_str()) {
        Some(h) => h,
        None => {
            let mut m = String::from_str("no handler registered for op '");
            m.append(op.op_type.as_str());
            m.append("'");
            proof {
                reveal_strlit("no handler registered for op '");
                reveal_strlit("'");
            }
            return Err(m);
        },
    };
    let ghost c0 = *ctx;
    let produced = match h {
        Handler::ArithConstant => arith::constant(op, ctx, env),
        Handler::ArithAddf => arith::addf(op, ctx, env),
        Handler::ArithMulf => arith::mulf(op, ctx, env),
        Handler::ArithAddi => arith::addi(op, ctx),
        Handler::FuncReturn => func::ret(),
        Handler::ScfFor => scf::scf_for(op, ctx, env),
        Handler::ScfIf => scf::scf_if(op, ctx, env),
        Handler::ScfYield => scf::scf_yield(op, ctx),
        Handler::LinalgMatmul => linalg::matmul(op, ctx, env),
        Handler::LinalgBatchMatmul => linalg::batch_matmul(op, ctx, env),
        Handler::LinalgGeneric => linalg::generic(op, ctx, env),
        Handler::LinalgReduce => linalg::reduce(op, ctx, env),
        Handler::LinalgTranspose => linalg::transpose(op, ctx, env),
        Handler::LinalgBroadcast => linalg::broadcast(op, ctx, env),
        Handler::LinalgFill => linalg::fill(op, ctx, env),
        Handler::LinalgIndex => linalg::index(op, ctx),
        Handler::LinalgYield => linalg::yield_op(op, ctx),
    };
    assert(keeps_ctx(h) ==> *ctx == c0);
    let ghost res = produced;
    assert(keeps_ctx(h) ==> handler_gives(h, *op, c0, *env, res));
    let produced = produced?;
    bind_produced(op, produced, ctx)
}

/// The handlers that compute their value without touching the context.
pub open spec fn keeps_ctx(h: Handler) -> bool {
    !runs_regions(h) && h != Handler::LinalgYield
}

/// The handlers that run nested regions of their op.
pub open spec fn runs_regions(h: Handler) -> bool {
    h == Handler::ScfFor || h == Handler::ScfIf || h == Handler::LinalgGeneric || h == Handler::LinalgReduce
}

/// Execute an op built on the fly (a `linalg.reduce` shorthand combiner):
/// as [`execute_op`], but an op whose handler runs nested regions is
/// refused, so such an op never recurses.
pub fn execute_leaf_op<F: FloatArith>(op: &Operation, ctx: &mut CoreContext, env: &ExecutionEnv<F>) -> (r:
    Result<Option<Value>, String>)
    requires
        old(ctx).wf(),
        env.dispatch.wf(),
    ensures
        exec_frame(*old(ctx), *final(ctx)),
        env.dispatch.handler_map().get(op.op_type@) is None ==> r is Err && *final(ctx) == *old(ctx),
        (env.dispatch.handler_map().get(op.op_type@) matches Some(h) && runs_regions(h)) ==> r is Err
            && *final(ctx) == *old(ctx),
        r matches Ok(v) ==> (op.result matches Some(name) ==> (v matches Some(val) && (final(ctx).lookup(
            name@,
        ) matches Some(w) && w@ == val@))),
        env.dispatch.handler_map().get(op.op_type@) == Some(Handler::ArithAddi) ==> ((r is Ok <==> arith::addi_result(
            *old(ctx),
            *op,
        ) is Some) && (r is Ok ==> r == Ok::<Option<Value>, String>(
            Some(Value::Scalar(Scalar::I64(arith::addi_result(*old(ctx), *op)->0))),
        ))),
        (env.dispatch.handler_map().get(op.op_type@) == Some(Handler::ArithConstant) && !(attr_lookup(
            op.attributes@,
            "value"@,
        ) matches Some(Attr::Float(_)))) ==> ((r is Ok <==> arith::constant_result(
            attr_lookup(op.attributes@, "value"@),
        ) is Some) && (r is Ok ==> r == Ok::<Option<Value>, String>(
            arith::constant_result(attr_lookup(op.attributes@, "value"@)),
        ))),
{
    let h = match env.dispatch.handler(op.op_type.as_str()) {
        Some(h) => h,
        None => {
            let mut m = String::from_str("no handler registered for op '");
            m.append(op.op_type.as_str());
            m.append("'");
            return Err(m);
        },
    };
    let produced = match h {
        Handler::ArithConstant => arith::constant(op, ctx, env),
        Handler::ArithAddf => arith::addf(op, ctx, env),
        Handler::ArithMulf => arith::mulf(op, ctx, env),
        Handler::ArithAddi => arith::addi(op, ctx),
        Handler::FuncReturn => func::ret(),
        Handler::ScfYield => scf::scf_yield(op, ctx),
        Handler::LinalgMatmul => linalg::matmul(op, ctx, env),
        Handler::LinalgBatchMatmul => linalg::batch_matmul(op, ctx, env),
        Handler::LinalgTranspose => linalg::transpose(op, ctx, env),
        Handler::LinalgBroadcast => linalg::broadcast(op, ctx, env),
        Handler::LinalgFill => linalg::fill(op, ctx, env),
        Handler::LinalgIndex => linalg::index(op, ctx),
        Handler::LinalgYield => linalg::yield_op(op, ctx),
        Handler::ScfFor | Handler::ScfIf | Handler::LinalgGeneric | Handler::LinalgReduce => {
            let mut m = String::from_str("op '");
            m.append(op.op_type.as_str());
            m.append("' runs nested regions and cannot be built on the fly");
            return Err(m);
        },
    };
    let produced = produced?;
    bind_produced(op, produced, ctx)
}

/// What `arith.addi` computes over the bindings `scopes`: the sum of its two
/// integer operands, when both are bound and the sum fits in an `i64`.
pub open spec fn addi_in(scopes: Seq<Map<Seq<char>, Value>>, op: Operation) -> Option<i64> {
    if op.operands@.len() != 2 {
        None
    } else {
        match (stack_lookup(scopes, normalize(op.operands@[0]@)), stack_lookup(scopes, normalize(op.operands@[1]@))) {
            (Some(a), Some(b)) => match (arith::int_operand(a), arith::int_operand(b)) {
                (Some(x), Some(y)) => if i64::MIN <= x + y <= i64::MAX {
                    Some((x + y) as i64)
                } else {
                    None
                },
                _ => None,
            },
            _ => None,
        }
    }
}

/// `op` is integer arithmetic: an `arith.addi`, or an `arith.constant` whose
/// value is not a float literal.
pub open spec fn is_int_op(handlers: Map<Seq<char>, Handler>, op: Operation) -> bool {
    ||| handlers.get(op.op_type@) == Some(Handler::ArithAddi)
    ||| (handlers.get(op.op_type@) == Some(Handler::ArithConstant) && !(attr_lookup(
        op.attributes@,
        "value"@,
    ) matches Some(Attr::Float(_))))
}

/// The value an integer op produces over the bindings `scopes`.
pub open spec fn int_op_value(handlers: Map<Seq<char>, Handler>, scopes: Seq<Map<Seq<char>, Value>>, op: Operation) -> Option<
    Value,
> {
    if handlers.get(op.op_type@) == Some(Handler::ArithAddi) {
        match addi_in(scopes, op) {
            Some(x) => Some(Value::Scalar(Scalar::I64(x))),
            None => None,
        }
    } else {
        arith::constant_result(attr_lookup(op.attributes@, "value"@))
    }
}

/// The bindings after running integer ops in order, each binding its value
/// to its result name; `None` when one of them fails.
pub open spec fn int_run(handlers: Map<Seq<char>, Handler>, scopes: Seq<Map<Seq<char>, Value>>, ops: Seq<Operation>) -> Option<
    Seq<Map<Seq<char>, Value>>,
>
    decreases ops.len(),
{
    if ops.len() == 0 {
        Some(scopes)
    } else {
        match int_op_value(handlers, scopes, ops[0]) {
            Some(v) => int_run(handlers, bind_scopes(scopes, ops[0], v), ops.drop_first()),
            None => None,
        }
    }
}

/// Two scope stacks resolve every SSA name alike.
pub open spec fn same_lookups(a: Seq<Map<Seq<char>, Value>>, b: Seq<Map<Seq<char>, Value>>) -> bool {
    forall|x: Seq<char>| #[trigger] stack_lookup(a, normalize(x)) == stack_lookup(b, normalize(x))
}

/// Binding in the innermost scope shadows the name and leaves the others.
pub proof fn lemma_lookup_insert_last(s: Seq<Map<Seq<char>, Value>>, k: Seq<char>, v: Value, n: Seq<char>)
    requires
        s.len() >= 1,
    ensures
        stack_lookup(s.update(s.len() - 1, s.last().insert(k, v)), n) == (if n == k {
            Some(v)
        } else {
            stack_lookup(s, n)
        }),
{
    let t = s.update(s.len() - 1, s.last().insert(k, v));
    assert(t.drop_last() =~= s.drop_last());
}

/// An integer op reads only names, and binds one in the innermost scope:
/// running integer ops over stacks that resolve names alike succeeds alike,
/// ends in stacks that resolve names alike, and changes only the innermost
/// scope.
pub proof fn lemma_int_run_lookups(hm: Map<Seq<char>, Handler>, a: Seq<Map<Seq<char>, Value>>, b: Seq<Map<Seq<char>, Value>>, ops: Seq<Operation>)
    requires
        a.len() >= 1,
        b.len() >= 1,
        same_lookups(a, b),
    ensures
        int_run(hm, a, ops) is Some <==> int_run(hm, b, ops) is Some,
        int_run(hm, a, ops) is Some ==> same_lookups(int_run(hm, a, ops)->0, int_run(hm, b, ops)->0),
        int_run(hm, a, ops) is Some ==> int_run(hm, a, ops)->0.len() == a.len() && int_run(hm, a, ops)->0.drop_last()
            == a.drop_last(),
    decreases ops.len(),
{
    if ops.len() > 0 {
        let op = ops[0];
        if op.operands@.len() == 2 {
            assert(stack_lookup(a, normalize(op.operands@[0]@)) == stack_lookup(b, normalize(op.operands@[0]@)));
            assert(stack_lookup(a, normalize(op.operands@[1]@)) == stack_lookup(b, normalize(op.operands@[1]@)));
        }
        assert(int_op_value(hm, a, op) == int_op_value(hm, b, op));
        match int_op_value(hm, a, op) {
            Some(v) => {
                let a2 = bind_scopes(a, op, v);
                let b2 = bind_scopes(b, op, v);
                assert(same_lookups(a2, b2)) by {
                    assert forall|x: Seq<char>| #[trigger] stack_lookup(a2, normalize(x)) == stack_lookup(b2, normalize(x)) by {
                        match op.result {
                            Some(r) => {
                                lemma_lookup_insert_last(a, normalize(r@), v, normalize(x));
                                lemma_lookup_insert_last(b, normalize(r@), v, normalize(x));
                            },
                            None => {},
                        }
                    }
                }
                lemma_int_run_lookups(hm, a2, b2, ops.drop_first());
                assert(a2.drop_last() =~= a.drop_last());
            },
            None => {},
        }
    }
}

/// Run a straight-line list of operations, stopping at the first error.
pub fn execute_ops<F: FloatArith>(ops: &[Operation], ctx: &mut CoreContext, env: &ExecutionEnv<F>) -> (r:
    Result<(), String>)
    requires
        old(ctx).wf(),
        env.dispatch.wf(),
    ensures
        exec_frame(*old(ctx), *final(ctx)),
        r is Ok ==> forall|i: int|
            0 <= i < ops@.len() ==> env.dispatch.handler_map().contains_key(#[trigger] ops@[i].op_type@),
        ops@.len() > 0 && !env.dispatch.handler_map().contains_key(ops@[0].op_type@) ==> r is Err && *final(ctx)
            == *old(ctx),
        ops@.len() == 0 ==> r is Ok && *final(ctx) == *old(ctx),
        (forall|i: int| 0 <= i < ops@.len() ==> is_int_op(env.dispatch.handler_map(), #[trigger] ops@[i])) ==> {
            &&& r is Ok <==> int_run(env.dispatch.handler_map(), old(ctx).scopes(), ops@) is Some
            &&& r is Ok ==> final(ctx).scopes() == int_run(env.dispatch.handler_map(), old(ctx).scopes(), ops@)->0
        },
        // the ops run in order, each as `execute_op` does, up to the first failure
        exists|cs: Seq<CoreContext>|
            #[trigger] ops_trace(*env, ops@, cs, r) && cs[0] == *old(ctx) && cs.last() == *final(ctx),
{
    let ghost hm = env.dispatch.handler_map();
    let ghost mut cs: Seq<CoreContext> = seq![*ctx];
    let ghost all_int = forall|i: int| 0 <= i < ops@.len() ==> is_int_op(hm, #[trigger] ops@[i]);
    let mut i: usize = 0;
    assert(ops@.skip(0) =~= ops@);
    while i < ops.len()
        invariant
            0 <= i <= ops@.len(),
            env.dispatch.wf(),
            hm == env.dispatch.handler_map(),
            all_int == forall|i: int| 0 <= i < ops@.len() ==> is_int_op(hm, #[trigger] ops@[i]),
            exec_frame(*old(ctx), *ctx),
            i == 0 ==> *ctx == *old(ctx),
            forall|j: int| 0 <= j < i ==> env.dispatch.handler_map().contains_key(#[trigger] ops@[j].op_type@),
            all_int ==> int_run(hm, old(ctx).scopes(), ops@) == int_run(hm, ctx.scopes(), ops@.skip(i as int)),
            cs.len() == i + 1,
            cs[0] == *old(ctx),
            cs.last() == *ctx,
            forall|j: int| 0 <= j < i ==> #[trigger] step_ok(*env, ops@, cs, j),
        decreases ops@.len() - i,
    {
        let ghost before = *ctx;
        let ghost cs0 = cs;
        let res = execute_op(&ops[i], ctx, env);
        proof {
            cs = cs.push(*ctx);
            assert forall|j: int| 0 <= j < i implies #[trigger] step_ok(*env, ops@, cs, j) by {
                assert(cs[j] == cs0[j] && cs[j + 1] == cs0[j + 1]);
                assert(step_ok(*env, ops@, cs0, j));
            }
        }
        proof {
            let rest = ops@.skip(i as int);
            assert(rest[0] == ops@[i as int]);
            assert(rest.drop_first() =~= ops@.skip(i + 1));
            if all_int {
                assert(is_int_op(hm, ops@[i as int]));
            }
        }
        match res {
            Ok(_) => {
                proof {
                    let v = res->Ok_0;
                    assert(op_outcome(*env, cs[i as int], ops@[i as int], cs[i + 1], Ok(v)));
                    assert(step_ok(*env, ops@, cs, i as int));
                }
            },
            Err(e) => {
                proof {
                    assert(ops_trace(*env, ops@, cs, Err::<(), String>(e)));
                }
                return Err(e);
            },
        }
        assert(env.dispatch.handler_map().get(ops@[i as int].op_type@) is Some);
        i = i + 1;
    }
    assert(ops_trace(*env, ops@, cs, Ok::<(), String>(())));
    Ok(())
}

/// Run a nested region's ops (the caller owns the region's scope).
pub fn execute_region<F: FloatArith>(ops: &[Operation], ctx: &mut CoreContext, env: &ExecutionEnv<F>) -> (r:
    Result<(), String>)
    requires
        old(ctx).wf(),
        env.dispatch.wf(),
    ensures
        exec_frame(*old(ctx), *final(ctx)),
        r is Ok ==> forall|i: int|
            0 <= i < ops@.len() ==> env.dispatch.handler_map().contains_key(#[trigger] ops@[i].op_type@),
        ops@.len() > 0 && !env.dispatch.handler_map().contains_key(ops@[0].op_type@) ==> r is Err && *final(ctx)
            == *old(ctx),
        ops@.len() == 0 ==> r is Ok && *final(ctx) == *old(ctx),
        (forall|i: int| 0 <= i < ops@.len() ==> is_int_op(env.dispatch.handler_map(), #[trigger] ops@[i])) ==> {
            &&& r is Ok <==> int_run(env.dispatch.handler_map(), old(ctx).scopes(), ops@) is Some
            &&& r is Ok ==> final(ctx).scopes() == int_run(env.dispatch.handler_map(), old(ctx).scopes(), ops@)->0
        },
        exists|cs: Seq<CoreContext>|
            #[trigger] ops_trace(*env, ops@, cs, r) && cs[0] == *old(ctx) && cs.last() == *final(ctx),
{
    execute_ops(ops, ctx, env)
}

/// A context for core 0 at grid position (0, 0, 0) over a fresh one-core
/// memory hierarchy.
pub fn single_core_context() -> (c: CoreContext)
    ensures
        c.wf(),
        c.core_id == 0,
        c.grid_pos == (0usize, 0usize, 0usize),
        c.mem.num_cores == 1,
        c.mem.lx_scratchpads@.len() == 1,
        c.local_lx().used == 0,
        c.local_lx().capacity == 2 * 1048576,
        c.scopes() == seq![Map::<Seq<char>, Value>::empty()],
        c.lx_sizes() == Map::<Seq<char>, i64>::empty(),
{
    let mem = SpyreMemoryHierarchy::new(1);
    assert(mem.lx_scratchpads@[0].capacity == 2 * 1048576);
    CoreContext::new(0, (0, 0, 0), mem)
}

} // verus!
