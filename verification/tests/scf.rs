use lib::dialects::scf::scf_yield;
use lib::dialects::Dispatch;
use lib::dtypes::DType;
use lib::context::CoreContext;
use lib::env::{ExecutionEnv, FloatArith, GridExecutor};
use lib::interpreter::{execute_ops, single_core_context};
use lib::ir::{Attr, Operation, Scalar, Tile, Value};

struct HostF32;

impl FloatArith for HostF32 {
    fn addf(&self, a: u32, b: u32) -> u32 {
        (f32::from_bits(a) + f32::from_bits(b)).to_bits()
    }
    fn mulf(&self, a: u32, b: u32) -> u32 {
        (f32::from_bits(a) * f32::from_bits(b)).to_bits()
    }
    fn subf(&self, a: u32, b: u32) -> u32 {
        (f32::from_bits(a) - f32::from_bits(b)).to_bits()
    }
    fn ltf(&self, a: u32, b: u32) -> bool {
        f32::from_bits(a) < f32::from_bits(b)
    }
    fn int_to_f32(&self, x: i64) -> u32 {
        (x as f32).to_bits()
    }
    fn parse_f32(&self, lit: &str) -> Option<u32> {
        lit.parse::<f64>().ok().map(|x| (x as f32).to_bits())
    }
    fn round_to_dtype(&self, x: u32, _dtype: DType) -> u32 {
        x
    }
    fn widen_f16(&self, h: u16) -> u32 {
        let sign = ((h & 0x8000) as u32) << 16;
        let exp = ((h >> 10) & 0x1f) as u32;
        let mant = (h & 0x03ff) as u32;
        if exp == 0 && mant == 0 {
            sign
        } else if exp == 0 {
            (if sign != 0 { -1.0f32 } else { 1.0 } * mant as f32 * 2.0f32.powi(-24)).to_bits()
        } else if exp == 0x1f {
            sign | 0x7f80_0000 | (mant << 13)
        } else {
            sign | ((exp + 127 - 15) << 23) | (mant << 13)
        }
    }
    fn round_to_i64(&self, x: u32) -> i64 {
        f32::from_bits(x).round() as i64
    }
}

fn tile_f32(data: &[f32], shape: Vec<usize>) -> Tile {
    Tile {
        data: data.iter().map(|x| x.to_bits()).collect(),
        dtype: DType::F32,
        shape,
        unique_sticks: None,
        index_unique_sticks: None,
    }
}

fn run(ops: &[Operation], ctx: &mut CoreContext) -> Result<(), String> {
    let dispatch = Dispatch::new();
    let grid = GridExecutor::new((1, 1, 1));
    let env = ExecutionEnv::new(&dispatch, &grid, &HostF32);
    execute_ops(ops, ctx, &env)
}

/// A `scf.for` op with a body region (and optional iter_args).
#[allow(clippy::too_many_arguments)]
fn for_op_ir(
    result: Option<&str>,
    lb: &str,
    ub: &str,
    step: &str,
    iter_var: &str,
    iter_inits: &[&str],
    iter_args: &[&str],
    body: Vec<Operation>,
) -> Operation {
    let mut operands = vec![lb, ub, step];
    operands.extend_from_slice(iter_inits);
    let mut op = Operation::new(result, "scf.for", &operands).with_attr("iter_var", Attr::Str(iter_var.into()));
    if !iter_args.is_empty() {
        op = op.with_attr("iter_args", Attr::StrList(iter_args.iter().map(|s| s.to_string()).collect()));
    }
    op.regions = vec![body];
    op
}


// --- scf.for: counting ------------------------------------------------

#[test]
fn for_counts_iterations_via_iter_arg() {
    let mut ctx = single_core_context();
    ctx.set_value("%lb", Value::Index(0));
    ctx.set_value("%ub", Value::Index(5));
    ctx.set_value("%step", Value::Index(1));
    ctx.set_value("%init", Value::Scalar(Scalar::I64(0)));
    // body: %s = addi %acc %one ; yield %s   (counts iterations)
    let one =
        Operation::new(Some("%one"), "arith.constant", &[]).with_attr("value", Attr::Int(1));
    let add = Operation::new(Some("%s"), "arith.addi", &["%acc", "%one"]);
    let yld = Operation::new(None, "scf.yield", &["%s"]);
    let body = vec![one, add, yld];
    let f = for_op_ir(
        Some("%r"),
        "%lb",
        "%ub",
        "%step",
        "%i",
        &["%init"],
        &["%acc"],
        body,
    );
    run(&[f], &mut ctx).unwrap();
    match ctx.get_value("%r").unwrap() {
        Value::Scalar(Scalar::I64(v)) => assert_eq!(*v, 5), // 5 iterations
        other => panic!("expected I64(5), got {other:?}"),
    }
}

#[test]
fn for_step_2_visits_three_times() {
    // 0..6 step 2 -> 3 iterations.
    let mut ctx = single_core_context();
    ctx.set_value("%lb", Value::Index(0));
    ctx.set_value("%ub", Value::Index(6));
    ctx.set_value("%step", Value::Index(2));
    ctx.set_value("%init", Value::Scalar(Scalar::I64(0)));
    let one =
        Operation::new(Some("%one"), "arith.constant", &[]).with_attr("value", Attr::Int(1));
    let add = Operation::new(Some("%s"), "arith.addi", &["%acc", "%one"]);
    let yld = Operation::new(None, "scf.yield", &["%s"]);
    let f = for_op_ir(
        Some("%r"),
        "%lb",
        "%ub",
        "%step",
        "%i",
        &["%init"],
        &["%acc"],
        vec![one, add, yld],
    );
    run(&[f], &mut ctx).unwrap();
    match ctx.get_value("%r").unwrap() {
        Value::Scalar(Scalar::I64(v)) => assert_eq!(*v, 3),
        other => panic!("expected I64(3), got {other:?}"),
    }
}

#[test]
fn for_induction_var_is_visible_in_body() {
    // running sum of the induction variable: acc += i over 0..4.
    let mut ctx = single_core_context();
    ctx.set_value("%lb", Value::Index(0));
    ctx.set_value("%ub", Value::Index(4));
    ctx.set_value("%step", Value::Index(1));
    ctx.set_value("%init", Value::Scalar(Scalar::I64(0)));
    // %s = addi %acc %i ; yield %s   (i is an Index, addi accepts it)
    let add = Operation::new(Some("%s"), "arith.addi", &["%acc", "%i"]);
    let yld = Operation::new(None, "scf.yield", &["%s"]);
    let f = for_op_ir(
        Some("%r"),
        "%lb",
        "%ub",
        "%step",
        "%i",
        &["%init"],
        &["%acc"],
        vec![add, yld],
    );
    run(&[f], &mut ctx).unwrap();
    match ctx.get_value("%r").unwrap() {
        // 0 + (0+1+2+3) = 6
        Value::Scalar(Scalar::I64(v)) => assert_eq!(*v, 6),
        other => panic!("expected I64(6), got {other:?}"),
    }
}

// --- scf.for: iter_args -----------------------------------------------

#[test]
fn for_iter_args_running_sum() {
    // Mirrors test_for_op_iter_args_running_sum: acc starts 0, += i, 0..4.
    let mut ctx = single_core_context();
    ctx.set_value("%lb", Value::Index(0));
    ctx.set_value("%ub", Value::Index(4));
    ctx.set_value("%step", Value::Index(1));
    ctx.set_value("%init", Value::Scalar(Scalar::I64(0)));
    let add = Operation::new(Some("%s"), "arith.addi", &["%acc", "%i"]);
    let yld = Operation::new(None, "scf.yield", &["%s"]);
    let f = for_op_ir(
        Some("%r"),
        "%lb",
        "%ub",
        "%step",
        "%i",
        &["%init"],
        &["%acc"],
        vec![add, yld],
    );
    run(&[f], &mut ctx).unwrap();
    match ctx.get_value("%r").unwrap() {
        Value::Scalar(Scalar::I64(v)) => assert_eq!(*v, 6),
        other => panic!("expected I64(6), got {other:?}"),
    }
}

#[test]
fn for_no_iters_returns_none_and_leaves_no_result() {
    // ub == lb: zero iterations, no iter_args, no result binding.
    let mut ctx = single_core_context();
    ctx.set_value("%lb", Value::Index(3));
    ctx.set_value("%ub", Value::Index(3));
    ctx.set_value("%step", Value::Index(1));
    let body = vec![Operation::new(None, "scf.yield", &[])];
    let f = for_op_ir(None, "%lb", "%ub", "%step", "%i", &[], &[], body);
    run(&[f], &mut ctx).unwrap();
    assert!(ctx.get_value("%i").is_err()); // induction var scope is gone
}

#[test]
fn for_multi_iter_args_yields_tuple() {
    // Two scalar accumulators advanced independently.
    let mut ctx = single_core_context();
    ctx.set_value("%lb", Value::Index(0));
    ctx.set_value("%ub", Value::Index(3));
    ctx.set_value("%step", Value::Index(1));
    ctx.set_value("%a0", Value::Scalar(Scalar::I64(0)));
    ctx.set_value("%b0", Value::Scalar(Scalar::I64(10)));
    let one =
        Operation::new(Some("%one"), "arith.constant", &[]).with_attr("value", Attr::Int(1));
    let na = Operation::new(Some("%na"), "arith.addi", &["%a", "%one"]);
    let nb = Operation::new(Some("%nb"), "arith.addi", &["%b", "%one"]);
    let yld = Operation::new(None, "scf.yield", &["%na", "%nb"]);
    let f = for_op_ir(
        Some("%r"),
        "%lb",
        "%ub",
        "%step",
        "%i",
        &["%a0", "%b0"],
        &["%a", "%b"],
        vec![one, na, nb, yld],
    );
    run(&[f], &mut ctx).unwrap();
    match ctx.get_value("%r").unwrap() {
        Value::Tuple(vals) => {
            assert_eq!(vals.len(), 2);
            assert!(matches!(vals[0], Value::Scalar(Scalar::I64(3)))); // 0+3
            assert!(matches!(vals[1], Value::Scalar(Scalar::I64(13)))); // 10+3
        }
        other => panic!("expected Tuple, got {other:?}"),
    }
}

#[test]
fn for_tile_iter_arg_lx_is_conserved() {
    // A Tile iter_arg: LX usage after the loop equals exactly one tile's
    // worth — the per-iteration body tile and old iter_arg tiles are freed.
    let mut ctx = single_core_context();
    ctx.set_value("%lb", Value::Index(0));
    ctx.set_value("%ub", Value::Index(3));
    ctx.set_value("%step", Value::Index(1));
    // init tile: 4 x f32 = 16 bytes
    ctx.set_value(
        "%init",
        Value::Tile(tile_f32(&[0.0; 4], vec![4])),
    );
    ctx.track_lx("%init", 16).unwrap();
    let one = Operation::new(Some("%one"), "arith.constant", &[])
        .with_attr("value", Attr::Float("1.0".into()));
    // each iteration yields a fresh tile via addf %acc %acc.
    let add = Operation::new(Some("%s"), "arith.addf", &["%acc", "%acc"]);
    let yld = Operation::new(None, "scf.yield", &["%s"]);
    let f = for_op_ir(
        Some("%r"),
        "%lb",
        "%ub",
        "%step",
        "%i",
        &["%init"],
        &["%acc"],
        vec![one, add, yld],
    );
    let used_before = ctx.get_lx(None).used;
    assert_eq!(used_before, 16); // only %init is tracked
    run(&[f], &mut ctx).unwrap();
    // After the loop, three tile-sized bindings remain, each 16 bytes (48):
    //   %init (still bound from setup), %acc (iter_arg, retracked each
    //   iteration), and %r (the loop result, tracked by execute_op).
    // The body-local %s tile is freed on pop_scope every iteration, so LX
    // does not grow with the iteration count — the conservation property.
    assert_eq!(ctx.get_lx(None).used, 48);
}

// --- scf.if -----------------------------------------------------------

#[test]
fn if_true_runs_then_branch() {
    let mut ctx = single_core_context();
    ctx.set_value("%cond", Value::Scalar(Scalar::Bool(true)));
    let c =
        Operation::new(Some("%t"), "arith.constant", &[]).with_attr("value", Attr::Float("7.0".into()));
    let yld = Operation::new(None, "scf.yield", &["%t"]);
    let e =
        Operation::new(Some("%f"), "arith.constant", &[]).with_attr("value", Attr::Float("9.0".into()));
    let eyld = Operation::new(None, "scf.yield", &["%f"]);
    let mut iff = Operation::new(Some("%r"), "scf.if", &["%cond"]);
    iff.regions = vec![vec![c, yld], vec![e, eyld]];
    run(&[iff], &mut ctx).unwrap();
    match ctx.get_value("%r").unwrap() {
        Value::Scalar(Scalar::F32(v)) => assert_eq!(f32::from_bits(*v), 7.0),
        other => panic!("expected F32(7.0), got {other:?}"),
    }
}

#[test]
fn if_false_runs_else_branch() {
    let mut ctx = single_core_context();
    ctx.set_value("%cond", Value::Scalar(Scalar::Bool(false)));
    let c =
        Operation::new(Some("%t"), "arith.constant", &[]).with_attr("value", Attr::Float("7.0".into()));
    let yld = Operation::new(None, "scf.yield", &["%t"]);
    let e =
        Operation::new(Some("%f"), "arith.constant", &[]).with_attr("value", Attr::Float("9.0".into()));
    let eyld = Operation::new(None, "scf.yield", &["%f"]);
    let mut iff = Operation::new(Some("%r"), "scf.if", &["%cond"]);
    iff.regions = vec![vec![c, yld], vec![e, eyld]];
    run(&[iff], &mut ctx).unwrap();
    match ctx.get_value("%r").unwrap() {
        Value::Scalar(Scalar::F32(v)) => assert_eq!(f32::from_bits(*v), 9.0),
        other => panic!("expected F32(9.0), got {other:?}"),
    }
}

#[test]
fn if_empty_branch_returns_none() {
    let mut ctx = single_core_context();
    ctx.set_value("%cond", Value::Scalar(Scalar::Bool(false)));
    // then has a body, else is empty -> condition false selects empty -> None.
    let c =
        Operation::new(Some("%t"), "arith.constant", &[]).with_attr("value", Attr::Float("7.0".into()));
    let yld = Operation::new(None, "scf.yield", &["%t"]);
    // no result name: op produces None, nothing bound.
    let mut iff = Operation::new(None, "scf.if", &["%cond"]);
    iff.regions = vec![vec![c, yld]]; // only a then-region
    run(&[iff], &mut ctx).unwrap();
    // no panic, and no stray binding leaked from the (unrun) then-branch.
    assert!(ctx.get_value("%t").is_err());
}

#[test]
fn if_branch_local_lx_is_freed() {
    let mut ctx = single_core_context();
    ctx.set_value("%cond", Value::Scalar(Scalar::Bool(true)));
    ctx.set_value(
        "%x",
        Value::Tile(tile_f32(&[1.0, 2.0], vec![2])),
    );
    // then: %y = addf %x %x ; yield nothing (no result) -> body-local tile freed.
    let add = Operation::new(Some("%y"), "arith.addf", &["%x", "%x"]);
    let yld = Operation::new(None, "scf.yield", &[]);
    let mut iff = Operation::new(None, "scf.if", &["%cond"]);
    iff.regions = vec![vec![add, yld]];
    let before = ctx.get_lx(None).used;
    run(&[iff], &mut ctx).unwrap();
    // %y (body-local) was freed on pop_scope; LX usage unchanged.
    assert_eq!(ctx.get_lx(None).used, before);
    assert!(ctx.get_value("%y").is_err());
}

#[test]
fn yield_gathers_multiple_operands() {
    let mut ctx = single_core_context();
    ctx.set_value("%a", Value::Scalar(Scalar::I64(1)));
    ctx.set_value("%b", Value::Scalar(Scalar::I64(2)));
    let op = Operation::new(None, "scf.yield", &["%a", "%b"]);
    let out = scf_yield(&op, &ctx).unwrap();
    match out {
        Some(Value::Tuple(vals)) => {
            assert_eq!(vals.len(), 2);
            assert!(matches!(vals[0], Value::Scalar(Scalar::I64(1))));
            assert!(matches!(vals[1], Value::Scalar(Scalar::I64(2))));
        }
        other => panic!("expected Tuple, got {other:?}"),
    }
}

#[test]
fn nested_for_inside_if() {
    // if(true) { %r = for ... acc += i ; yield acc } yield %r
    let mut ctx = single_core_context();
    ctx.set_value("%cond", Value::Scalar(Scalar::Bool(true)));
    ctx.set_value("%lb", Value::Index(0));
    ctx.set_value("%ub", Value::Index(4));
    ctx.set_value("%step", Value::Index(1));
    ctx.set_value("%init", Value::Scalar(Scalar::I64(0)));
    let add = Operation::new(Some("%s"), "arith.addi", &["%acc", "%i"]);
    let fyld = Operation::new(None, "scf.yield", &["%s"]);
    let inner_for = for_op_ir(
        Some("%r"),
        "%lb",
        "%ub",
        "%step",
        "%i",
        &["%init"],
        &["%acc"],
        vec![add, fyld],
    );
    let oyld = Operation::new(None, "scf.yield", &["%r"]);
    let mut iff = Operation::new(Some("%out"), "scf.if", &["%cond"]);
    iff.regions = vec![vec![inner_for, oyld]];
    run(&[iff], &mut ctx).unwrap();
    match ctx.get_value("%out").unwrap() {
        Value::Scalar(Scalar::I64(v)) => assert_eq!(*v, 6),
        other => panic!("expected I64(6), got {other:?}"),
    }
}

#[test]
fn for_ends_on_the_last_induction_value() {
    for (lb, ub, step, last) in [(0i64, 5i64, 1i64, 4i64), (0, 6, 2, 4), (0, 7, 3, 6), (3, 4, 1, 3), (2, 5, 0, 4), (-4, 3, 5, 1)] {
        let mut ctx = single_core_context();
        ctx.set_value("%lb", Value::Index(lb));
        ctx.set_value("%ub", Value::Index(ub));
        ctx.set_value("%step", Value::Index(step));
        ctx.set_value("%init", Value::Index(-100));
        let yld = Operation::new(None, "scf.yield", &["%i"]);
        let f = for_op_ir(Some("%r"), "%lb", "%ub", "%step", "%i", &["%init"], &["%acc"], vec![yld]);
        run(&[f], &mut ctx).unwrap();
        match ctx.get_value("%r").unwrap() {
            Value::Index(v) => assert_eq!(*v, last, "lb {lb} ub {ub} step {step}"),
            other => panic!("expected an index, got {other:?}"),
        }
        assert!(ctx.get_value("%i").is_err());
    }
}

#[test]
fn for_counts_its_iterations_into_the_iter_arg() {
    for (lb, ub, step, count) in [(0i64, 5i64, 1i64, 5i64), (0, 6, 2, 3), (3, 3, 1, 0), (0, 7, 3, 3), (5, 2, 1, 0), (0, 3, 0, 3)] {
        let mut ctx = single_core_context();
        ctx.set_value("%lb", Value::Index(lb));
        ctx.set_value("%ub", Value::Index(ub));
        ctx.set_value("%step", Value::Index(step));
        ctx.set_value("%init", Value::Scalar(Scalar::I64(0)));
        let one = Operation::new(Some("%one"), "arith.constant", &[]).with_attr("value", Attr::Int(1));
        let add = Operation::new(Some("%s"), "arith.addi", &["%acc", "%one"]);
        let yld = Operation::new(None, "scf.yield", &["%s"]);
        let f = for_op_ir(Some("%r"), "%lb", "%ub", "%step", "%i", &["%init"], &["%acc"], vec![one, add, yld]);
        run(&[f], &mut ctx).unwrap();
        match ctx.get_value("%r").unwrap() {
            Value::Scalar(Scalar::I64(v)) => assert_eq!(*v, count, "lb {lb} ub {ub} step {step}"),
            other => panic!("expected an i64, got {other:?}"),
        }
        assert!(ctx.get_value("%i").is_err());
    }
}
