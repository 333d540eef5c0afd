//! `scf` dialect: `scf.for` (induction variable, iter_args, yield; each
//! iteration in its own scope), `scf.if` (then / else regions) and
//! `scf.yield`, which hands its operand values to the enclosing driver as a
//! tuple.

use vstd::prelude::*;
use super::{Dispatch, Handler, LatencyCategory};
use crate::context::{CoreContext, normalize, stack_lookup};
use crate::env::{ExecutionEnv, FloatArith};
use crate::interpreter::{execute_op, exec_frame, int_run, is_int_op, same_lookups, lemma_lookup_insert_last, lemma_int_run_lookups, lemma_plain_view_eq};
use crate::ir::{Attr, Operation, Scalar, Value, attr_lookup, spec_scalar_i64};

verus! {

/// Register `scf.for`, `scf.if` and `scf.yield`.
pub fn register(d: &mut Dispatch)
    requires
        old(d).wf(),
    ensures
        final(d).wf(),
        final(d).handler_map() == old(d).handler_map().insert("scf.for"@, Handler::ScfFor).insert(
            "scf.if"@,
            Handler::ScfIf,
        ).insert("scf.yield"@, Handler::ScfYield),
        final(d).latency_map() == old(d).latency_map().insert("scf.for"@, LatencyCategory::Zero).insert(
            "scf.if"@,
            LatencyCategory::Zero,
        ).insert("scf.yield"@, LatencyCategory::Zero),
{
    d.register("scf.for", LatencyCategory::Zero, Handler::ScfFor);
    d.register("scf.if", LatencyCategory::Zero, Handler::ScfIf);
    d.register("scf.yield", LatencyCategory::Zero, Handler::ScfYield);
}

/// Every operand of `op` is bound in `ctx`.
pub open spec fn all_bound(ctx: CoreContext, op: Operation) -> bool {
    forall|i: int| 0 <= i < op.operands@.len() ==> (#[trigger] ctx.lookup(op.operands@[i]@)) is Some
}

/// Copies of the values, element for element.
pub fn clone_values(v: &Vec<Value>) -> (out: Vec<Value>)
    ensures
        out@.len() == v@.len(),
        forall|i: int| 0 <= i < v@.len() ==> #[trigger] out@[i]@ == v@[i]@,
{
    let mut out: Vec<Value> = Vec::new();
    let mut i: usize = 0;
    while i < v.len()
        invariant
            0 <= i <= v@.len(),
            out@.len() == i,
            forall|j: int| 0 <= j < i ==> #[trigger] out@[j]@ == v@[j]@,
        decreases v@.len() - i,
    {
        out.push(v[i].clone());
        i = i + 1;
    }
    out
}

/// `scf.yield %a, %b, ...`: the operands' values, gathered into a tuple for
/// the enclosing loop or conditional.
pub fn scf_yield(op: &Operation, ctx: &CoreContext) -> (r: Result<Option<Value>, String>)
    requires
        ctx.wf(),
    ensures
        r is Ok <==> all_bound(*ctx, *op),
        r matches Ok(v) ==> (v matches Some(Value::Tuple(vals)) && vals@.len() == op.operands@.len()
            && forall|i: int|
            0 <= i < vals@.len() ==> #[trigger] vals@[i]@ == ctx.lookup(op.operands@[i]@)->0@),
{
    let mut vals: Vec<Value> = Vec::new();
    let mut i: usize = 0;
    while i < op.operands.len()
        invariant
            ctx.wf(),
            0 <= i <= op.operands@.len(),
            vals@.len() == i,
            forall|j: int| 0 <= j < i ==> (#[trigger] ctx.lookup(op.operands@[j]@)) is Some,
            forall|j: int| 0 <= j < i ==> #[trigger] vals@[j]@ == ctx.lookup(op.operands@[j]@)->0@,
        decreases op.operands@.len() - i,
    {
        match ctx.get_value(op.operands[i].as_str()) {
            Ok(v) => {
                vals.push(v.clone());
            },
            Err(e) => {
                return Err(e);
            },
        }
        i = i + 1;
    }
    Ok(Some(Value::Tuple(vals)))
}

/// What a region's yield becomes: a single value passes through bare, several
/// stay a tuple, and an empty yield or no yield is nothing.
pub open spec fn spec_unwrap_yield(result: Option<Value>) -> Option<Value> {
    match result {
        Some(Value::Tuple(vals)) => if vals@.len() == 0 {
            None
        } else if vals@.len() == 1 {
            Some(vals@[0])
        } else {
            Some(Value::Tuple(vals))
        },
        other => other,
    }
}

/// See [`spec_unwrap_yield`].
pub fn unwrap_yield(result: Option<Value>) -> (r: Option<Value>)
    ensures
        r == spec_unwrap_yield(result),
{
    match result {
        Some(Value::Tuple(mut vals)) => {
            if vals.len() == 0 {
                None
            } else if vals.len() == 1 {
                vals.pop()
            } else {
                Some(Value::Tuple(vals))
            }
        },
        other => other,
    }
}

/// The integer an index or integer scalar carries.
pub open spec fn spec_as_i64(v: Value) -> Option<i64> {
    match v {
        Value::Index(i) => Some(i),
        Value::Scalar(s) => spec_scalar_i64(s),
        _ => None,
    }
}

/// The truth value of a condition operand: a bool, or a nonzero integer.
pub open spec fn spec_as_bool(v: Value) -> Option<bool> {
    match v {
        Value::Scalar(Scalar::Bool(b)) => Some(b),
        Value::Scalar(Scalar::I32(i)) => Some(i != 0),
        Value::Scalar(Scalar::I64(i)) => Some(i != 0),
        Value::Index(i) => Some(i != 0),
        _ => None,
    }
}

/// See [`spec_as_i64`].
pub fn as_i64(v: &Value) -> (r: Result<i64, String>)
    ensures
        r matches Ok(i) ==> spec_as_i64(*v) == Some(i),
        r is Err <==> spec_as_i64(*v) is None,
{
    match v {
        Value::Index(i) => Ok(*i),
        Value::Scalar(s) => match s.as_i64() {
            Some(i) => Ok(i),
            None => Err(String::from_str("expected index/int, got a non-int scalar")),
        },
        _ => Err(String::from_str("expected index/int")),
    }
}

/// See [`spec_as_bool`].
pub fn as_bool(v: &Value) -> (r: Result<bool, String>)
    ensures
        r matches Ok(b) ==> spec_as_bool(*v) == Some(b),
        r is Err <==> spec_as_bool(*v) is None,
{
    match v {
        Value::Scalar(Scalar::Bool(b)) => Ok(*b),
        Value::Scalar(Scalar::I32(i)) => Ok(*i != 0),
        Value::Scalar(Scalar::I64(i)) => Ok(*i != 0),
        Value::Index(i) => Ok(*i != 0),
        _ => Err(String::from_str("expected boolean condition")),
    }
}

/// Run a region body op by op; the value of its last `scf.yield`, if any.
/// The caller owns the region's scope.
pub fn run_region<F: FloatArith>(ops: &Vec<Operation>, ctx: &mut CoreContext, env: &ExecutionEnv<F>) -> (r:
    Result<Option<Value>, String>)
    requires
        old(ctx).wf(),
        env.dispatch.wf(),
    ensures
        exec_frame(*old(ctx), *final(ctx)),
        ops@.len() == 0 ==> r == Ok::<Option<Value>, String>(None) && *final(ctx) == *old(ctx),
        r matches Ok(Some(_)) ==> exists|i: int| 0 <= i < ops@.len() && (#[trigger] ops@[i]).op_type@ == "scf.yield"@,
        r is Ok ==> forall|i: int|
            0 <= i < ops@.len() ==> env.dispatch.handler_map().contains_key(#[trigger] ops@[i].op_type@),
        int_body(ops@, env.dispatch.handler_map()) ==> ({
            &&& r is Ok <==> body_yield(env.dispatch.handler_map(), old(ctx).scopes(), ops@) is Some
            &&& r is Ok ==> (r->Ok_0 matches Some(Value::Tuple(vals)) && vals@.len() == 1 && vals@[0]@ == body_yield(
                env.dispatch.handler_map(),
                old(ctx).scopes(),
                ops@,
            )->0@)
            &&& r is Ok ==> final(ctx).scopes() == int_run(env.dispatch.handler_map(), old(ctx).scopes(), ops@.drop_last())->0
        }),
        yield_only(ops@, env.dispatch.handler_map()) ==> ({
            &&& r is Ok <==> all_bound(*old(ctx), ops@[0])
            &&& r is Ok ==> (r->Ok_0 matches Some(Value::Tuple(vals)) && vals@.len() == ops@[0].operands@.len()
                && forall|k: int|
                0 <= k < vals@.len() ==> #[trigger] vals@[k]@ == old(ctx).lookup(ops@[0].operands@[k]@)->0@)
        }),
    decreases ops@, 0int,
{
    let ghost single = yield_only(ops@, env.dispatch.handler_map());
    let ghost ib = int_body(ops@, env.dispatch.handler_map());
    let ghost hm = env.dispatch.handler_map();
    let ghost pre = ops@.drop_last();
    proof {
        if ib {
            assert(pre.skip(0) =~= pre);
        }
    }
    let mut last_yield: Option<Value> = None;
    let mut i: usize = 0;
    while i < ops.len()
        invariant
            0 <= i <= ops@.len(),
            env.dispatch.wf(),
            exec_frame(*old(ctx), *ctx),
            last_yield is Some ==> exists|j: int| 0 <= j < i && (#[trigger] ops@[j]).op_type@ == "scf.yield"@,
            forall|j: int| 0 <= j < i ==> env.dispatch.handler_map().contains_key(#[trigger] ops@[j].op_type@),
            i == 0 ==> *ctx == *old(ctx) && last_yield is None,
            single == yield_only(ops@, env.dispatch.handler_map()),
            ib == int_body(ops@, env.dispatch.handler_map()),
            hm == env.dispatch.handler_map(),
            pre == ops@.drop_last(),
            ib && i < ops@.len() ==> last_yield is None,
            ib && i < ops@.len() ==> int_run(hm, old(ctx).scopes(), pre) == int_run(hm, ctx.scopes(), pre.skip(i as int)),
            ib && i == ops@.len() ==> body_yield(hm, old(ctx).scopes(), ops@) is Some,
            ib && i == ops@.len() ==> ctx.scopes() == int_run(hm, old(ctx).scopes(), pre)->0,
            ib && i == ops@.len() ==> (last_yield matches Some(Value::Tuple(vals)) && vals@.len() == 1 && vals@[0]@
                == body_yield(hm, old(ctx).scopes(), ops@)->0@),
            single && i == 1 ==> all_bound(*old(ctx), ops@[0]),
            single && i == 1 ==> (last_yield matches Some(Value::Tuple(vals)) && vals@.len() == ops@[0].operands@.len()
                && forall|k: int|
                0 <= k < vals@.len() ==> #[trigger] vals@[k]@ == old(ctx).lookup(ops@[0].operands@[k]@)->0@),
        decreases ops@.len() - i,
    {
        assert(decreases_to!(ops@ => ops@[i as int]));
        let ghost before = *ctx;
        proof {
            if ib && i + 1 < ops@.len() {
                assert(is_int_op(hm, ops@[i as int]));
                assert(pre.skip(i as int)[0] == ops@[i as int]);
                assert(pre.skip(i as int).drop_first() =~= pre.skip(i + 1));
                assert(ops@[i as int].op_type@ != "scf.yield"@);
            }
            if ib && i + 1 == ops@.len() {
                assert(pre.skip(i as int) =~= Seq::<Operation>::empty());
            }
        }
        let produced = match execute_op(&ops[i], ctx, env) {
            Ok(p) => p,
            Err(e) => {
                return Err(e);
            },
        };
        assert(env.dispatch.handler_map().get(ops@[i as int].op_type@) is Some);
        if crate::text::str_eq(ops[i].op_type.as_str(), "scf.yield") {
            last_yield = produced;
            assert(ops@[i as int].op_type@ == "scf.yield"@);
        }
        i = i + 1;
    }
    Ok(last_yield)
}

/// The loop body is the single op `scf.yield` of the induction variable
/// `iv`: each iteration yields the value it ran with.
pub open spec fn yields_induction(op: Operation, iv: Seq<char>, handlers: Map<Seq<char>, Handler>) -> bool {
    &&& op.regions@.len() > 0
    &&& yield_only(op.regions@[0]@, handlers)
    &&& op.regions@[0]@[0].operands@.len() == 1
    &&& normalize(op.regions@[0]@[0].operands@[0]@) == normalize(iv)
}

/// The `k`-th induction value of a loop from `lb` by `step`.
pub open spec fn nth_visit(lb: int, step: int, k: int) -> int {
    lb + k * step
}

/// `v` is the last induction value a loop from `lb` while below `ub`, by
/// `step`, visits: `lb + k * step` for the `k` that puts it in
/// `[ub - step, ub)`.
pub open spec fn last_visit(lb: int, ub: int, step: int, v: int) -> bool {
    exists|k: int| 0 <= k && v == #[trigger] nth_visit(lb, step, k) && v < ub && ub <= v + step
}

/// A region of integer ops closed by an `scf.yield` of one value (no
/// result name, run by the yield handler).
pub open spec fn int_body(ops: Seq<Operation>, handlers: Map<Seq<char>, Handler>) -> bool {
    &&& ops.len() >= 1
    &&& ops.last().op_type@ == "scf.yield"@
    &&& ops.last().result is None
    &&& ops.last().operands@.len() == 1
    &&& handlers.get("scf.yield"@) == Some(Handler::ScfYield)
    &&& forall|i: int| 0 <= i < ops.len() - 1 ==> is_int_op(handlers, #[trigger] ops[i])
}

/// What an integer body yields over the bindings `scopes`: the value its
/// yield names after its integer ops ran.
pub open spec fn body_yield(handlers: Map<Seq<char>, Handler>, scopes: Seq<Map<Seq<char>, Value>>, ops: Seq<Operation>) -> Option<
    Value,
> {
    match int_run(handlers, scopes, ops.drop_last()) {
        Some(s2) => stack_lookup(s2, normalize(ops.last().operands@[0]@)),
        None => None,
    }
}

/// `scopes` with iter_arg `name` bound to `acc` in its innermost scope.
pub open spec fn carried_scopes(scopes: Seq<Map<Seq<char>, Value>>, name: Seq<char>, acc: Value) -> Seq<
    Map<Seq<char>, Value>,
> {
    scopes.update(scopes.len() - 1, scopes.last().insert(normalize(name), acc))
}

/// The bindings an iteration's body starts from: the carried bindings and a
/// fresh innermost scope binding the induction variable `iv` to `i`.
pub open spec fn iteration_scopes(
    scopes: Seq<Map<Seq<char>, Value>>,
    name: Seq<char>,
    acc: Value,
    iv: Seq<char>,
    i: int,
) -> Seq<Map<Seq<char>, Value>> {
    carried_scopes(scopes, name, acc).push(Map::<Seq<char>, Value>::empty().insert(normalize(iv), Value::Index(i as i64)))
}

/// The value a loop with one iter_arg `name`, induction variable `iv` and
/// integer body `body` ends with when it is at induction value `i` carrying
/// `acc`: each iteration below `ub` yields the next value, by `step`.
/// `None` when an iteration fails or yields neither a scalar nor an index.
pub open spec fn loop_value(
    hm: Map<Seq<char>, Handler>,
    scopes: Seq<Map<Seq<char>, Value>>,
    name: Seq<char>,
    iv: Seq<char>,
    body: Seq<Operation>,
    i: int,
    ub: int,
    step: int,
    acc: Value,
) -> Option<Value>
    decreases (if i < ub {
        ub - i
    } else {
        0
    }),
{
    if i >= ub {
        Some(acc)
    } else if step < 1 {
        None
    } else {
        match body_yield(hm, iteration_scopes(scopes, name, acc, iv, i), body) {
            Some(v) => if v is Scalar || v is Index {
                loop_value(hm, scopes, name, iv, body, i + step, ub, step, v)
            } else {
                None
            },
            None => None,
        }
    }
}

/// A fresh innermost scope shadows its names and passes the rest outward.
proof fn lemma_lookup_push(s: Seq<Map<Seq<char>, Value>>, m: Map<Seq<char>, Value>, n: Seq<char>)
    ensures
        stack_lookup(s.push(m), n) == (if m.contains_key(n) {
            Some(m[n])
        } else {
            stack_lookup(s, n)
        }),
{
    assert(s.push(m).drop_last() =~= s);
}

/// An iteration's actual bindings resolve names as the canonical
/// [`iteration_scopes`] do, so its body yields what the canonical body
/// yields.
proof fn lemma_iteration_yield(
    hm: Map<Seq<char>, Handler>,
    s0: Seq<Map<Seq<char>, Value>>,
    prev: Seq<Map<Seq<char>, Value>>,
    entered: Seq<Map<Seq<char>, Value>>,
    nm: Seq<char>,
    acc: Value,
    iv: Seq<char>,
    i: i64,
    body: Seq<Operation>,
)
    requires
        s0.len() >= 1,
        prev.len() >= 1,
        body.len() >= 1,
        same_lookups(prev, carried_scopes(s0, nm, acc)),
        entered == prev.push(Map::<Seq<char>, Value>::empty().insert(normalize(iv), Value::Index(i))),
    ensures
        body_yield(hm, entered, body) == body_yield(hm, iteration_scopes(s0, nm, acc, iv, i as int), body),
        int_run(hm, entered, body.drop_last()) is Some ==> int_run(hm, entered, body.drop_last())->0.drop_last() == prev,
{
    let m = Map::<Seq<char>, Value>::empty().insert(normalize(iv), Value::Index(i));
    let c = iteration_scopes(s0, nm, acc, iv, i as int);
    assert(c == carried_scopes(s0, nm, acc).push(m));
    assert forall|x: Seq<char>| #[trigger] stack_lookup(entered, normalize(x)) == stack_lookup(c, normalize(x)) by {
        lemma_lookup_push(prev, m, normalize(x));
        lemma_lookup_push(carried_scopes(s0, nm, acc), m, normalize(x));
        assert(stack_lookup(prev, normalize(x)) == stack_lookup(carried_scopes(s0, nm, acc), normalize(x)));
    }
    assert(same_lookups(entered, c));
    lemma_int_run_lookups(hm, entered, c, body.drop_last());
    if int_run(hm, c, body.drop_last()) is Some {
        let y = body.last().operands@[0]@;
        assert(stack_lookup(int_run(hm, entered, body.drop_last())->0, normalize(y)) == stack_lookup(
            int_run(hm, c, body.drop_last())->0,
            normalize(y),
        ));
        assert(entered.drop_last() =~= prev);
    }
}

/// Rebinding the iter_arg after an iteration: bindings that resolve like
/// the carried ones for `acc`, with `nm` now bound to `v`, resolve like the
/// carried ones for `v`.
proof fn lemma_rebind(
    s0: Seq<Map<Seq<char>, Value>>,
    before: Seq<Map<Seq<char>, Value>>,
    after: Seq<Map<Seq<char>, Value>>,
    nm: Seq<char>,
    acc: Value,
    v: Value,
)
    requires
        s0.len() >= 1,
        same_lookups(before, carried_scopes(s0, nm, acc)),
        stack_lookup(after, normalize(nm)) == Some(v),
        forall|x: Seq<char>|
            normalize(x) != normalize(nm) ==> #[trigger] stack_lookup(after, normalize(x)) == stack_lookup(before, normalize(x)),
    ensures
        same_lookups(after, carried_scopes(s0, nm, v)),
{
    assert forall|x: Seq<char>| #[trigger] stack_lookup(after, normalize(x)) == stack_lookup(
        carried_scopes(s0, nm, v),
        normalize(x),
    ) by {
        crate::interpreter::lemma_lookup_insert_last(s0, normalize(nm), v, normalize(x));
        crate::interpreter::lemma_lookup_insert_last(s0, normalize(nm), acc, normalize(x));
    }
}

/// `ops` is a single `scf.yield` with no result name, run by the yield
/// handler.
pub open spec fn yield_only(ops: Seq<Operation>, handlers: Map<Seq<char>, Handler>) -> bool {
    &&& ops.len() == 1
    &&& ops[0].op_type@ == "scf.yield"@
    &&& ops[0].result is None
    &&& handlers.get("scf.yield"@) == Some(Handler::ScfYield)
}

/// `scf.if %cond { then } else { else }`: run the selected region in a scope
/// of its own (its LX is released when it closes) and pass its yield on.
pub fn scf_if<F: FloatArith>(op: &Operation, ctx: &mut CoreContext, env: &ExecutionEnv<F>) -> (r: Result<
    Option<Value>,
    String,
>)
    requires
        old(ctx).wf(),
        env.dispatch.wf(),
    ensures
        exec_frame(*old(ctx), *final(ctx)),
        op.operands@.len() == 0 ==> r is Err,
        op.operands@.len() > 0 ==> (match old(ctx).lookup(op.operands@[0]@) {
            Some(c) => spec_as_bool(c) is None ==> r is Err,
            None => r is Err,
        }),
        (op.operands@.len() > 0 && (old(ctx).lookup(op.operands@[0]@) matches Some(c) && (spec_as_bool(c)
            matches Some(b) && ({
            let k: int = if b {
                0
            } else {
                1
            };
            k >= op.regions@.len() || op.regions@[k]@.len() == 0
        })))) ==> r == Ok::<Option<Value>, String>(None) && *final(ctx) == *old(ctx),
    decreases op, 1int,
{
    if op.operands.len() == 0 {
        return Err(String::from_str("scf.if: missing condition operand"));
    }
    let condition = as_bool(ctx.get_value(op.operands[0].as_str())?)?;
    let k: usize = if condition {
        0
    } else {
        1
    };
    if k >= op.regions.len() || op.regions[k].len() == 0 {
        return Ok(None);
    }
    proof {
        vstd::std_specs::vec::axiom_vec_decreases_to_view(op.regions);
        vstd::std_specs::vec::axiom_vec_decreases_to_view(op.regions@[k as int]);
        assert(decreases_to!(*op => op.regions));
        assert(decreases_to!(op.regions => op.regions@));
        assert(decreases_to!(op.regions@ => op.regions@[k as int]));
        assert(decreases_to!(op.regions@[k as int] => op.regions@[k as int]@));
    }
    ctx.push_scope();
    let result = run_region(&op.regions[k], ctx, env);
    ctx.pop_scope();
    let yielded = result?;
    Ok(unwrap_yield(yielded))
}

/// Operand `k` of `op` is bound to an integer or index.
pub open spec fn bound_int(ctx: CoreContext, op: Operation, k: int) -> bool {
    ctx.lookup(op.operands@[k]@) matches Some(v) && spec_as_i64(v) is Some
}

/// The induction variable name of an `scf.for`: its `iter_var` attribute,
/// `%i` by default.
pub open spec fn iter_var_of(op: Operation) -> Seq<char> {
    match attr_lookup(op.attributes@, "iter_var"@) {
        Some(Attr::Str(s)) => s@,
        _ => "%i"@,
    }
}

/// Operand `k` of `op` is bound to a scalar or an index.
pub open spec fn bound_plain(ctx: CoreContext, op: Operation, k: int) -> bool {
    ctx.lookup(op.operands@[k]@) matches Some(v) && (v is Scalar || v is Index)
}

/// The iter_arg names of an `scf.for` (its `iter_args` attribute).
pub open spec fn iter_arg_names(op: Operation) -> Seq<String> {
    match attr_lookup(op.attributes@, "iter_args"@) {
        Some(Attr::StrList(v)) => v@,
        _ => Seq::empty(),
    }
}

/// Bind `names[k]` to `vals[k]` for every `k` below both lengths, in
/// order, in the innermost scope, recording the LX each tile occupies.
fn bind_iter_args(ctx: &mut CoreContext, names: &Vec<String>, vals: &Vec<Value>) -> (r: Result<(), String>)
    requires
        old(ctx).wf(),
    ensures
        exec_frame(*old(ctx), *final(ctx)),
        r is Ok ==> forall|k: int|
            0 <= k < min_len(names@.len(), vals@.len()) && (forall|j: int|
                k < j < min_len(names@.len(), vals@.len()) ==> normalize(names@[j]@) != normalize(names@[k]@))
                ==> (final(ctx).lookup(#[trigger] names@[k]@) matches Some(w) && w@ == vals@[k]@),
        r is Ok ==> forall|x: Seq<char>|
            (forall|j: int| 0 <= j < min_len(names@.len(), vals@.len()) ==> normalize(names@[j]@) != normalize(x))
                ==> #[trigger] final(ctx).lookup(x) == old(ctx).lookup(x),
        (forall|k: int| 0 <= k < min_len(names@.len(), vals@.len()) ==> !(vals@[k] is Tile)) ==> r is Ok,
{
    let n = if names.len() <= vals.len() {
        names.len()
    } else {
        vals.len()
    };
    let ghost s0 = ctx.scopes();
    let ghost l0 = s0.last();
    let mut k: usize = 0;
    while k < n
        invariant
            0 <= k <= n,
            n == min_len(names@.len(), vals@.len()),
            n <= names@.len(),
            n <= vals@.len(),
            exec_frame(*old(ctx), *ctx),
            s0 == old(ctx).scopes(),
            l0 == s0.last(),
            s0.len() >= 1,
            ctx.scopes().len() == s0.len(),
            ctx.scopes().drop_last() == s0.drop_last(),
            forall|x: Seq<char>|
                (forall|j: int| 0 <= j < k ==> normalize(names@[j]@) != x) ==> (#[trigger] ctx.scopes().last().contains_key(x)
                    == l0.contains_key(x) && (l0.contains_key(x) ==> ctx.scopes().last()[x] == l0[x])),
            forall|j: int|
                0 <= j < k && (forall|j2: int| j < j2 < k ==> normalize(names@[j2]@) != normalize(names@[j]@))
                    ==> ctx.scopes().last().contains_key(normalize(#[trigger] names@[j]@)) && ctx.scopes().last()[normalize(
                    names@[j]@,
                )]@ == vals@[j]@,
        decreases n - k,
    {
        ctx.untrack_lx(names[k].as_str());
        let v = vals[k].clone();
        let ghost before = ctx.scopes();
        ctx.set_value(names[k].as_str(), v);
        let ghost after_set = ctx.scopes();
        if let Value::Tile(t) = &vals[k] {
            let size = match t.checked_size_bytes() {
                Some(b) => b,
                None => {
                    return Err(String::from_str("tile too large for LX accounting"));
                },
            };
            ctx.track_lx(names[k].as_str(), size)?;
        }
        proof {
            assert(ctx.scopes() == after_set);
            assert(after_set.drop_last() =~= before.drop_last());
            assert(after_set.last() == before.last().insert(normalize(names@[k as int]@), v));
        }
        k = k + 1;
    }
    proof {
        let fs = ctx.scopes();
        assert forall|x: Seq<char>|
            (forall|j: int| 0 <= j < n ==> normalize(names@[j]@) != normalize(x)) implies #[trigger] ctx.lookup(x)
            == old(ctx).lookup(x) by {
            let key = normalize(x);
            assert(fs.drop_last() == s0.drop_last());
            if !l0.contains_key(key) {
                assert(stack_lookup(fs, key) == stack_lookup(fs.drop_last(), key));
                assert(stack_lookup(s0, key) == stack_lookup(s0.drop_last(), key));
            }
        }
    }
    Ok(())
}

/// The smaller of two lengths.
pub open spec fn min_len(a: nat, b: nat) -> int {
    if a <= b {
        a as int
    } else {
        b as int
    }
}

/// The counted loop of `scf.for`: iter_args bound in the enclosing scope,
/// each iteration's body in a fresh scope, yielded values fed back as the
/// next iteration's iter_args. The final iter_arg values, or `None` when
/// there are none. A step below 1 counts as 1.
#[verifier::rlimit(100)]
pub fn for_op<F: FloatArith>(
    ctx: &mut CoreContext,
    lower_bound: i64,
    upper_bound: i64,
    step: i64,
    iter_var_name: &str,
    op: &Operation,
    env: &ExecutionEnv<F>,
    iter_arg_names: &Vec<String>,
    iter_init_values: Vec<Value>,
) -> (r: Result<Option<Vec<Value>>, String>)
    requires
        old(ctx).wf(),
        env.dispatch.wf(),
    ensures
        exec_frame(*old(ctx), *final(ctx)),
        r matches Ok(Some(vals)) ==> vals@.len() > 0,
        iter_init_values@.len() == 0 && iter_arg_names@.len() == 0 ==> (r is Ok ==> r
            == Ok::<Option<Vec<Value>>, String>(None)),
        (lower_bound >= upper_bound || !has_body(*op)) && (forall|k: int|
            0 <= k < min_len(iter_arg_names@.len(), iter_init_values@.len()) ==> !(#[trigger] iter_init_values@[k] is Tile))
            ==> r is Ok,
        (lower_bound >= upper_bound || !has_body(*op)) ==> (r matches Ok(x) ==> (iter_init_values@.len() == 0
            ==> x is None) && (iter_init_values@.len() > 0 ==> (x matches Some(v) && v@ == iter_init_values@))),
        (yields_induction(*op, iter_var_name@, env.dispatch.handler_map()) && iter_arg_names@.len() == 1
            && iter_init_values@.len() == 1 && !(iter_init_values@[0] is Tile) && lower_bound < upper_bound) ==> (
        r matches Ok(Some(vals)) && vals@.len() == 1 && (vals@[0] matches Value::Index(v) && last_visit(
            lower_bound as int,
            upper_bound as int,
            (if step < 1 {
                1
            } else {
                step
            }) as int,
            v as int,
        ))),
        // one iter_arg and an integer body: the loop ends carrying the value the
        // iterations compute in turn
        (op.regions@.len() > 0 && int_body(op.regions@[0]@, env.dispatch.handler_map()) && iter_arg_names@.len() == 1
            && iter_init_values@.len() == 1 && (iter_init_values@[0] is Scalar || iter_init_values@[0] is Index)
            && loop_value(
            env.dispatch.handler_map(),
            old(ctx).scopes(),
            iter_arg_names@[0]@,
            iter_var_name@,
            op.regions@[0]@,
            lower_bound as int,
            upper_bound as int,
            (if step < 1 {
                1
            } else {
                step
            }) as int,
            iter_init_values@[0],
        ) is Some) ==> (r matches Ok(Some(vals)) && vals@.len() == 1 && vals@[0] == loop_value(
            env.dispatch.handler_map(),
            old(ctx).scopes(),
            iter_arg_names@[0]@,
            iter_var_name@,
            op.regions@[0]@,
            lower_bound as int,
            upper_bound as int,
            (if step < 1 {
                1
            } else {
                step
            }) as int,
            iter_init_values@[0],
        )->0),
    decreases op, 0int,
{
    let ghost hm = env.dispatch.handler_map();
    let ghost s0 = old(ctx).scopes();
    let ghost gi = op.regions@.len() > 0 && int_body(op.regions@[0]@, hm) && iter_arg_names@.len() == 1
        && iter_init_values@.len() == 1 && (iter_init_values@[0] is Scalar || iter_init_values@[0] is Index)
        && loop_value(hm, s0, iter_arg_names@[0]@, iter_var_name@, op.regions@[0]@, lower_bound as int,
        upper_bound as int, (if step < 1 { 1 } else { step }) as int, iter_init_values@[0]) is Some;
    let ghost yi = yields_induction(*op, iter_var_name@, env.dispatch.handler_map()) && iter_arg_names@.len() == 1
        && iter_init_values@.len() == 1 && !(iter_init_values@[0] is Tile) && lower_bound < upper_bound;
    let ghost init = iter_init_values@;
    let mut current_values = iter_init_values;
    assert(gi ==> !(current_values@[0] is Tile));
    bind_iter_args(ctx, iter_arg_names, &current_values)?;
    proof {
        if gi {
            let nm = iter_arg_names@[0]@;
            lemma_plain_view_eq(ctx.lookup(nm)->0, init[0]);
            assert forall|x: Seq<char>| #[trigger] stack_lookup(ctx.scopes(), normalize(x)) == stack_lookup(
                carried_scopes(s0, nm, init[0]),
                normalize(x),
            ) by {
                lemma_lookup_insert_last(s0, normalize(nm), init[0], normalize(x));
                if normalize(x) != normalize(nm) {
                    assert(ctx.lookup(x) == old(ctx).lookup(x));
                }
            }
        }
    }
    let stride = if step < 1 {
        1
    } else {
        step
    };
    let has_body = op.regions.len() > 0 && op.regions[0].len() > 0;
    let mut i = lower_bound;
    let ghost mut kk: int = 0;
    let ghost mut last: i64 = lower_bound;
    while i < upper_bound
        invariant
            yi == (yields_induction(*op, iter_var_name@, env.dispatch.handler_map()) && iter_arg_names@.len() == 1
                && iter_init_values@.len() == 1 && !(iter_init_values@[0] is Tile) && lower_bound < upper_bound),
            hm == env.dispatch.handler_map(),
            s0 == old(ctx).scopes(),
            gi == (op.regions@.len() > 0 && int_body(op.regions@[0]@, hm) && iter_arg_names@.len() == 1
                && iter_init_values@.len() == 1 && (iter_init_values@[0] is Scalar || iter_init_values@[0] is Index)
                && loop_value(hm, s0, iter_arg_names@[0]@, iter_var_name@, op.regions@[0]@, lower_bound as int,
                upper_bound as int, stride as int, iter_init_values@[0]) is Some),
            gi ==> current_values@.len() == 1 && (current_values@[0] is Scalar || current_values@[0] is Index),
            gi ==> loop_value(hm, s0, iter_arg_names@[0]@, iter_var_name@, op.regions@[0]@, lower_bound as int,
                upper_bound as int, stride as int, iter_init_values@[0]) == loop_value(hm, s0, iter_arg_names@[0]@,
                iter_var_name@, op.regions@[0]@, i as int, upper_bound as int, stride as int, current_values@[0]),
            gi ==> same_lookups(ctx.scopes(), carried_scopes(s0, iter_arg_names@[0]@, current_values@[0])),
            yi ==> i <= upper_bound,
            yi && i == lower_bound ==> kk == 0,
            yi && i < upper_bound ==> i == nth_visit(lower_bound as int, stride as int, kk),
            yi && kk > 0 ==> last == nth_visit(lower_bound as int, stride as int, kk - 1) && last < upper_bound
                && current_values@.len() == 1 && current_values@[0] == Value::Index(last),
            yi && i == upper_bound ==> kk > 0 && upper_bound <= last + stride,
            yi ==> kk >= 0,
            exec_frame(*old(ctx), *ctx),
            env.dispatch.wf(),
            stride >= 1,
            stride == (if step < 1 {
                1
            } else {
                step
            }),
            has_body ==> op.regions@.len() > 0,
            has_body == self::has_body(*op),
            iter_init_values@.len() == 0 && iter_arg_names@.len() == 0 ==> current_values@.len() == 0,
            init == iter_init_values@,
            !has_body ==> current_values@ == init,
            i >= lower_bound,
            i == lower_bound || lower_bound < upper_bound,
            i == lower_bound ==> current_values@ == init,
        decreases upper_bound - i,
    {
        let ghost prev = ctx.scopes();
        let ghost acc = current_values@[0];
        ctx.push_scope();
        let ghost pushed = *ctx;
        ctx.set_value(iter_var_name, Value::Index(i));
        proof {
            crate::context::lemma_set_then_get(pushed, *ctx, iter_var_name@, Value::Index(i));
        }
        let ghost entered = *ctx;
        let result = if has_body {
            proof {
                vstd::std_specs::vec::axiom_vec_decreases_to_view(op.regions);
                vstd::std_specs::vec::axiom_vec_decreases_to_view(op.regions@[0]);
                assert(decreases_to!(*op => op.regions));
                assert(decreases_to!(op.regions => op.regions@));
                assert(decreases_to!(op.regions@ => op.regions@[0]));
                assert(decreases_to!(op.regions@[0] => op.regions@[0]@));
            }
            run_region(&op.regions[0], ctx, env)
        } else {
            Ok(None)
        };
        let yielded_values: Option<Vec<Value>> = match &result {
            Ok(Some(Value::Tuple(vals))) => {
                if iter_arg_names.len() > 0 {
                    Some(clone_values(vals))
                } else {
                    None
                }
            },
            _ => None,
        };
        proof {
            if yi {
                let body = op.regions@[0]@;
                assert(yield_only(body, env.dispatch.handler_map()));
                assert(result matches Ok(Some(Value::Tuple(vals))) && vals@.len() == 1);
            }
        }
        let ghost v_next = body_yield(hm, iteration_scopes(s0, iter_arg_names@[0]@, acc, iter_var_name@, i as int), op.regions@[0]@);
        proof {
            if gi {
                assert(entered.scopes() =~= prev.push(
                    Map::<Seq<char>, Value>::empty().insert(normalize(iter_var_name@), Value::Index(i)),
                ));
                lemma_iteration_yield(hm, s0, prev, entered.scopes(), iter_arg_names@[0]@, acc, iter_var_name@, i, op.regions@[0]@);
                assert(loop_value(hm, s0, iter_arg_names@[0]@, iter_var_name@, op.regions@[0]@, i as int, upper_bound as int,
                    stride as int, acc) is Some);
                assert(v_next is Some);
                assert(v_next->0 is Scalar || v_next->0 is Index);
                assert(loop_value(hm, s0, iter_arg_names@[0]@, iter_var_name@, op.regions@[0]@, i as int, upper_bound as int,
                    stride as int, acc) == loop_value(hm, s0, iter_arg_names@[0]@, iter_var_name@, op.regions@[0]@, i + stride,
                    upper_bound as int, stride as int, v_next->0));
                assert(result matches Ok(Some(Value::Tuple(vals))) && vals@.len() == 1 && vals@[0]@ == v_next->0@);
            }
        }
        ctx.pop_scope();
        assert(gi ==> result is Ok);
        if let Err(e) = result {
            return Err(e);
        }
        if let Some(yielded) = yielded_values {
            proof {
                if yi {
                    lemma_plain_view_eq(yielded@[0], Value::Index(i));
                }
                if gi {
                    lemma_plain_view_eq(yielded@[0], v_next->0);
                }
            }
            let ghost unbound = *ctx;
            assert(gi ==> !(yielded@[0] is Tile));
            bind_iter_args(ctx, iter_arg_names, &yielded)?;
            proof {
                if gi {
                    let nm = iter_arg_names@[0]@;
                    lemma_plain_view_eq(ctx.lookup(nm)->0, v_next->0);
                    assert forall|x: Seq<char>| normalize(x) != normalize(nm) implies #[trigger] stack_lookup(
                        ctx.scopes(),
                        normalize(x),
                    ) == stack_lookup(unbound.scopes(), normalize(x)) by {
                        assert(ctx.lookup(x) == unbound.lookup(x));
                    }
                    lemma_rebind(s0, unbound.scopes(), ctx.scopes(), nm, acc, v_next->0);
                }
            }
            current_values = yielded;
        }
        proof {
            if yi {
                last = i;
                assert(nth_visit(lower_bound as int, stride as int, kk + 1) == i + stride) by (nonlinear_arith)
                    requires
                        i == lower_bound + kk * stride,
                ;
                kk = kk + 1;
            }
        }
        let next: i128 = i as i128 + stride as i128;
        proof {
            if gi && next >= upper_bound {
                let nm = iter_arg_names@[0]@;
                assert(loop_value(hm, s0, nm, iter_var_name@, op.regions@[0]@, i + stride, upper_bound as int, stride as int,
                    current_values@[0]) == Some(current_values@[0]));
                assert(loop_value(hm, s0, nm, iter_var_name@, op.regions@[0]@, upper_bound as int, upper_bound as int,
                    stride as int, current_values@[0]) == Some(current_values@[0]));
            }
        }
        i = if next >= upper_bound as i128 {
            upper_bound
        } else {
            next as i64
        };
    }
    proof {
        if yi {
            assert(last_visit(lower_bound as int, upper_bound as int, stride as int, last as int)) by {
                assert(nth_visit(lower_bound as int, stride as int, kk - 1) == last);
            }
        }
    }
    if current_values.len() == 0 {
        Ok(None)
    } else {
        Ok(Some(current_values))
    }
}

/// The loop has a body: a first region with at least one op.
pub open spec fn has_body(op: Operation) -> bool {
    op.regions@.len() > 0 && op.regions@[0]@.len() > 0
}

/// The integer operand `k` of `op` is bound to.
pub open spec fn bound_val(ctx: CoreContext, op: Operation, k: int) -> i64 {
    spec_as_i64(ctx.lookup(op.operands@[k]@)->0)->0
}

/// `%r = scf.for %i = %lb to %ub step %step iter_args(%a = %init, ...) { body }`:
/// the final iter_arg value (one iter_arg) or a tuple of them (several);
/// nothing when there are no iter_args.
pub fn scf_for<F: FloatArith>(op: &Operation, ctx: &mut CoreContext, env: &ExecutionEnv<F>) -> (r: Result<
    Option<Value>,
    String,
>)
    requires
        old(ctx).wf(),
        env.dispatch.wf(),
    ensures
        exec_frame(*old(ctx), *final(ctx)),
        op.operands@.len() < 3 ==> r is Err,
        op.operands@.len() >= 3 && !(bound_int(*old(ctx), *op, 0) && bound_int(*old(ctx), *op, 1)
            && bound_int(*old(ctx), *op, 2)) ==> r is Err,
        op.operands@.len() == 3 && iter_arg_names(*op).len() == 0 ==> (r is Ok ==> r == Ok::<
            Option<Value>,
            String,
        >(None)),
        (op.operands@.len() == 3 && bound_int(*old(ctx), *op, 0) && bound_int(*old(ctx), *op, 1) && bound_int(
            *old(ctx),
            *op,
            2,
        ) && (bound_val(*old(ctx), *op, 0) >= bound_val(*old(ctx), *op, 1) || !has_body(*op))) ==> r == Ok::<
            Option<Value>,
            String,
        >(None),
        // a body yielding the induction variable to one iter_arg: the loop visits
        // lb, lb + step, ... while below ub and ends with the last value visited
        (op.operands@.len() == 4 && bound_int(*old(ctx), *op, 0) && bound_int(*old(ctx), *op, 1) && bound_int(
            *old(ctx),
            *op,
            2,
        ) && bound_plain(*old(ctx), *op, 3) && iter_arg_names(*op).len() == 1 && yields_induction(
            *op,
            iter_var_of(*op),
            env.dispatch.handler_map(),
        ) && bound_val(*old(ctx), *op, 0) < bound_val(*old(ctx), *op, 1)) ==> (r matches Ok(Some(Value::Index(v)))
            && last_visit(
            bound_val(*old(ctx), *op, 0) as int,
            bound_val(*old(ctx), *op, 1) as int,
            (if bound_val(*old(ctx), *op, 2) < 1 {
                1
            } else {
                bound_val(*old(ctx), *op, 2)
            }) as int,
            v as int,
        )),
        // one iter_arg and an integer body: the loop ends carrying the value its
        // iterations compute in turn
        (op.operands@.len() == 4 && bound_int(*old(ctx), *op, 0) && bound_int(*old(ctx), *op, 1) && bound_int(
            *old(ctx),
            *op,
            2,
        ) && bound_plain(*old(ctx), *op, 3) && iter_arg_names(*op).len() == 1 && op.regions@.len() > 0 && int_body(
            op.regions@[0]@,
            env.dispatch.handler_map(),
        ) && loop_value(
            env.dispatch.handler_map(),
            old(ctx).scopes(),
            iter_arg_names(*op)[0]@,
            iter_var_of(*op),
            op.regions@[0]@,
            bound_val(*old(ctx), *op, 0) as int,
            bound_val(*old(ctx), *op, 1) as int,
            (if bound_val(*old(ctx), *op, 2) < 1 {
                1
            } else {
                bound_val(*old(ctx), *op, 2)
            }) as int,
            old(ctx).lookup(op.operands@[3]@)->0,
        ) is Some) ==> r == Ok::<Option<Value>, String>(
            loop_value(
                env.dispatch.handler_map(),
                old(ctx).scopes(),
                iter_arg_names(*op)[0]@,
                iter_var_of(*op),
                op.regions@[0]@,
                bound_val(*old(ctx), *op, 0) as int,
                bound_val(*old(ctx), *op, 1) as int,
                (if bound_val(*old(ctx), *op, 2) < 1 {
                    1
                } else {
                    bound_val(*old(ctx), *op, 2)
                }) as int,
                old(ctx).lookup(op.operands@[3]@)->0,
            ),
        ),
    decreases op, 1int,
{
    if op.operands.len() < 3 {
        let mut m = String::from_str("scf.for expects at least 3 operands (lb, ub, step), got ");
        m.append(&crate::text::usize_to_decimal(op.operands.len()));
        return Err(m);
    }
    let lb = as_i64(ctx.get_value(op.operands[0].as_str())?)?;
    let ub = as_i64(ctx.get_value(op.operands[1].as_str())?)?;
    let step = as_i64(ctx.get_value(op.operands[2].as_str())?)?;
    let iter_var = match op.get_attr("iter_var") {
        Some(Attr::Str(s)) => s.clone(),
        _ => String::from_str("%i"),
    };
    assert(iter_var@ == iter_var_of(*op));
    let names: Vec<String> = match op.get_attr("iter_args") {
        Some(Attr::StrList(v)) => {
            let mut out: Vec<String> = Vec::new();
            let mut j: usize = 0;
            while j < v.len()
                invariant
                    0 <= j <= v@.len(),
                    out@.len() == j,
                    forall|q: int| 0 <= q < j ==> #[trigger] out@[q]@ == v@[q]@,
                decreases v@.len() - j,
            {
                out.push(v[j].clone());
                j = j + 1;
            }
            out
        },
        _ => Vec::new(),
    };
    assert(names@.len() == iter_arg_names(*op).len());
    assert(names@.len() > 0 ==> names@[0]@ == iter_arg_names(*op)[0]@);
    let mut inits: Vec<Value> = Vec::new();
    let mut j: usize = 3;
    while j < op.operands.len()
        invariant
            3 <= j <= op.operands@.len(),
            ctx.wf(),
            inits@.len() == j - 3,
            forall|q: int| 0 <= q < inits@.len() ==> ctx.lookup(#[trigger] op.operands@[q + 3]@) is Some
                && inits@[q]@ == ctx.lookup(op.operands@[q + 3]@)->0@,
        decreases op.operands@.len() - j,
    {
        let v = ctx.get_value(op.operands[j].as_str())?;
        inits.push(v.clone());
        j = j + 1;
    }
    proof {
        if op.operands@.len() == 4 && bound_plain(*ctx, *op, 3) {
            assert(inits@.len() == 1);
            assert(ctx.lookup(op.operands@[0int + 3]@) is Some);
            lemma_plain_view_eq(inits@[0], ctx.lookup(op.operands@[3]@)->0);
        }
    }
    let result = for_op(ctx, lb, ub, step, iter_var.as_str(), op, env, &names, inits)?;
    match result {
        None => Ok(None),
        Some(mut vals) => {
            if vals.len() == 1 {
                Ok(vals.pop())
            } else if vals.len() == names.len() {
                Ok(Some(Value::Tuple(vals)))
            } else {
                let mut m = String::from_str("scf.for: expected ");
                m.append(&crate::text::usize_to_decimal(names.len()));
                m.append(" results, got ");
                m.append(&crate::text::usize_to_decimal(vals.len()));
                Err(m)
            }
        },
    }
}

} // verus!
