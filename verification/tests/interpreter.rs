use lib::dtypes::DType;
use lib::dialects::Dispatch;
use lib::env::{ExecutionEnv, FloatArith, GridExecutor};
use lib::interpreter::{execute_op, execute_ops, single_core_context};
use lib::ir::{Attr, Operation, Scalar, Tile, Value};

fn tile_f32(data: &[f32], shape: Vec<usize>) -> Tile {
    Tile {
        data: data.iter().map(|x| x.to_bits()).collect(),
        dtype: DType::F32,
        shape,
        unique_sticks: None,
        index_unique_sticks: None,
    }
}

struct HostF32;

impl FloatArith for HostF32 {
    fn addf(&self, a: u32, b: u32) -> u32 {
        (f32::from_bits(a) + f32::from_bits(b)).to_bits()
    }
    fn mulf(&self, a: u32, b: u32) -> u32 {
        (f32::from_bits(a) * f32::from_bits(b)).to_bits()
    }
    fn subf(&self, a: u32, b: u32) -> u32 {
        (f32::from_bits(a) - f32::from_bits(b)).to_bits()
    }
    fn ltf(&self, a: u32, b: u32) -> bool {
        f32::from_bits(a) < f32::from_bits(b)
    }
    fn int_to_f32(&self, x: i64) -> u32 {
        (x as f32).to_bits()
    }
    fn parse_f32(&self, lit: &str) -> Option<u32> {
        lit.parse::<f64>().ok().map(|x| (x as f32).to_bits())
    }
    fn round_to_dtype(&self, x: u32, _dtype: DType) -> u32 {
        x
    }
    fn widen_f16(&self, h: u16) -> u32 {
        let sign = ((h & 0x8000) as u32) << 16;
        let exp = ((h >> 10) & 0x1f) as u32;
        let mant = (h & 0x03ff) as u32;
        if exp == 0 && mant == 0 {
            sign
        } else if exp == 0 {
            (if sign != 0 { -1.0f32 } else { 1.0 } * mant as f32 * 2.0f32.powi(-24)).to_bits()
        } else if exp == 0x1f {
            sign | 0x7f80_0000 | (mant << 13)
        } else {
            sign | ((exp + 127 - 15) << 23) | (mant << 13)
        }
    }
    fn round_to_i64(&self, x: u32) -> i64 {
        f32::from_bits(x).round() as i64
    }
}

#[test]
fn unknown_op_errors() {
    let dispatch = Dispatch::new();
    let grid = GridExecutor::new((1, 1, 1));
    let env = ExecutionEnv::new(&dispatch, &grid, &HostF32);
    let mut ctx = single_core_context();
    let ops = vec![Operation::new(Some("%z"), "ktdp.not_yet", &[])];
    let err = execute_ops(&ops, &mut ctx, &env).unwrap_err();
    assert!(err.contains("no handler registered"));
}

#[test]
fn integer_chain_binds_results() {
    let dispatch = Dispatch::new();
    let grid = GridExecutor::new((1, 1, 1));
    let env = ExecutionEnv::new(&dispatch, &grid, &HostF32);
    let mut ctx = single_core_context();
    let ops = vec![
        Operation::new(Some("%a"), "arith.constant", &[]).with_attr("value", Attr::Int(40)),
        Operation::new(Some("%b"), "arith.constant", &[]).with_attr("value", Attr::Int(2)),
        Operation::new(Some("%c"), "arith.addi", &["%a", "%b"]),
        Operation::new(None, "return", &[]),
    ];
    execute_ops(&ops, &mut ctx, &env).unwrap();
    assert!(matches!(ctx.get_value("%c").unwrap(), Value::Scalar(Scalar::I64(42))));
}

#[test]
fn addi_overflow_is_an_error() {
    let dispatch = Dispatch::new();
    let grid = GridExecutor::new((1, 1, 1));
    let env = ExecutionEnv::new(&dispatch, &grid, &HostF32);
    let mut ctx = single_core_context();
    ctx.set_value("%a", Value::Scalar(Scalar::I64(i64::MAX)));
    ctx.set_value("%b", Value::Index(1));
    let op = Operation::new(Some("%c"), "arith.addi", &["%a", "%b"]);
    assert!(execute_op(&op, &mut ctx, &env).is_err());
    assert!(!ctx.has_value("%c"));
}

#[test]
fn scalar_constant_fold_chain() {
    let ops = vec![
        Operation::new(Some("%a"), "arith.constant", &[]).with_attr("value", Attr::Float("2.0".into())),
        Operation::new(Some("%b"), "arith.constant", &[]).with_attr("value", Attr::Float("3.0".into())),
        Operation::new(Some("%c"), "arith.addf", &["%a", "%b"]),
        Operation::new(Some("%d"), "arith.mulf", &["%c", "%a"]),
    ];
    let dispatch = Dispatch::new();
    let grid = GridExecutor::new((1, 1, 1));
    let env = ExecutionEnv::new(&dispatch, &grid, &HostF32);
    let mut ctx = single_core_context();
    execute_ops(&ops, &mut ctx, &env).unwrap();
    match ctx.get_value("%d").unwrap() {
        Value::Scalar(Scalar::F32(v)) => assert_eq!(f32::from_bits(*v), 10.0),
        other => panic!("expected F32(10.0), got {other:?}"),
    }
}

#[test]
fn elementwise_tile_add_tracks_lx() {
    let dispatch = Dispatch::new();
    let grid = GridExecutor::new((1, 1, 1));
    let env = ExecutionEnv::new(&dispatch, &grid, &HostF32);
    let mut ctx = single_core_context();
    ctx.set_value("%x", Value::Tile(tile_f32(&[1.0, 2.0, 3.0], vec![3])));
    ctx.set_value("%y", Value::Tile(tile_f32(&[10.0, 20.0, 30.0], vec![3])));
    let ops = vec![Operation::new(Some("%z"), "arith.addf", &["%x", "%y"])];
    execute_ops(&ops, &mut ctx, &env).unwrap();
    match ctx.get_value("%z").unwrap() {
        Value::Tile(t) => {
            let got: Vec<f32> = t.data.iter().map(|b| f32::from_bits(*b)).collect();
            assert_eq!(got, vec![11.0, 22.0, 33.0]);
        }
        other => panic!("expected tile, got {other:?}"),
    }
    // the result Tile was tracked in LX (3 * f32 = 12 bytes)
    assert_eq!(ctx.get_lx(None).used, 12);
}

#[test]
fn tile_shape_mismatch_is_an_error() {
    let dispatch = Dispatch::new();
    let grid = GridExecutor::new((1, 1, 1));
    let env = ExecutionEnv::new(&dispatch, &grid, &HostF32);
    let mut ctx = single_core_context();
    ctx.set_value("%x", Value::Tile(tile_f32(&[1.0, 2.0, 3.0], vec![3])));
    ctx.set_value("%y", Value::Tile(tile_f32(&[1.0, 2.0, 3.0], vec![3, 1])));
    let op = Operation::new(Some("%z"), "arith.addf", &["%x", "%y"]);
    assert!(execute_op(&op, &mut ctx, &env).is_err());
    assert_eq!(ctx.get_lx(None).used, 0);
}

#[test]
fn result_without_value_is_an_error() {
    let dispatch = Dispatch::new();
    let grid = GridExecutor::new((1, 1, 1));
    let env = ExecutionEnv::new(&dispatch, &grid, &HostF32);
    let mut ctx = single_core_context();
    let op = Operation::new(Some("%r"), "return", &[]);
    assert!(execute_op(&op, &mut ctx, &env).is_err());
}

#[test]
fn dispatch_latency_categories() {
    let d = Dispatch::new();
    assert_eq!(d.latency_category("arith.addf").as_str(), "compute_float");
    assert_eq!(d.latency_category("arith.addi").as_str(), "compute_int");
    assert_eq!(d.latency_category("nope").as_str(), "zero");
    assert!(d.handler("scf.for").is_some());
    assert!(d.handler("nope").is_none());
}

#[test]
fn unregistered_op_message_names_the_op() {
    let dispatch = Dispatch::new();
    let grid = GridExecutor::new((1, 1, 1));
    let env = ExecutionEnv::new(&dispatch, &grid, &HostF32);
    let mut ctx = single_core_context();
    let op = Operation::new(Some("%z"), "ktdp.not_yet", &[]);
    assert_eq!(execute_op(&op, &mut ctx, &env).unwrap_err(), "no handler registered for op 'ktdp.not_yet'");
    assert!(ctx.get_value("%z").is_err());
}

#[test]
fn return_with_a_result_name_is_an_error() {
    let dispatch = Dispatch::new();
    let grid = GridExecutor::new((1, 1, 1));
    let env = ExecutionEnv::new(&dispatch, &grid, &HostF32);
    let mut ctx = single_core_context();
    let op = Operation::new(Some("%r"), "return", &[]);
    assert_eq!(execute_op(&op, &mut ctx, &env).unwrap_err(), "op 'return' has result %r but produced no value");
}

#[test]
fn a_bound_tile_takes_its_bytes_of_lx() {
    let dispatch = Dispatch::new();
    let grid = GridExecutor::new((1, 1, 1));
    let env = ExecutionEnv::new(&dispatch, &grid, &HostF32);
    let mut ctx = single_core_context();
    ctx.set_value("%x", Value::Tile(tile_f32(&[1.0, 2.0, 3.0], vec![3])));
    let before = ctx.get_lx(None).used;
    let op = Operation::new(Some("%y"), "arith.addf", &["%x", "%x"]);
    execute_op(&op, &mut ctx, &env).unwrap();
    assert_eq!(ctx.get_lx(None).used, before + 12);
}

#[test]
fn integer_program_fails_at_an_unbound_operand() {
    let dispatch = Dispatch::new();
    let grid = GridExecutor::new((1, 1, 1));
    let env = ExecutionEnv::new(&dispatch, &grid, &HostF32);
    let mut ctx = single_core_context();
    let ops = vec![
        Operation::new(Some("%a"), "arith.constant", &[]).with_attr("value", Attr::Int(7)),
        Operation::new(Some("%b"), "arith.addi", &["%a", "%a"]),
        Operation::new(Some("%c"), "arith.addi", &["%b", "%missing"]),
    ];
    assert!(execute_ops(&ops, &mut ctx, &env).is_err());
    assert!(matches!(ctx.get_value("%b").unwrap(), Value::Scalar(Scalar::I64(14))));
}

#[test]
fn a_run_stops_at_the_first_failing_op() {
    let dispatch = Dispatch::new();
    let grid = GridExecutor::new((1, 1, 1));
    let env = ExecutionEnv::new(&dispatch, &grid, &HostF32);
    let mut ctx = single_core_context();
    let ops = vec![
        Operation::new(Some("%a"), "arith.constant", &[]).with_attr("value", Attr::Float("1.5".into())),
        Operation::new(Some("%b"), "arith.addf", &["%a", "%missing"]),
        Operation::new(Some("%c"), "arith.constant", &[]).with_attr("value", Attr::Int(2)),
    ];
    assert!(execute_ops(&ops, &mut ctx, &env).is_err());
    assert!(ctx.has_value("%a"));
    assert!(!ctx.has_value("%b"));
    assert!(!ctx.has_value("%c"));
}

#[test]
fn float_scalars_add_and_bind() {
    let dispatch = Dispatch::new();
    let grid = GridExecutor::new((1, 1, 1));
    let env = ExecutionEnv::new(&dispatch, &grid, &HostF32);
    let mut ctx = single_core_context();
    ctx.set_value("%x", Value::Scalar(Scalar::F32(1.25f32.to_bits())));
    ctx.set_value("%y", Value::Scalar(Scalar::F32(2.5f32.to_bits())));
    let op = Operation::new(Some("%z"), "arith.addf", &["%x", "%y"]);
    match execute_op(&op, &mut ctx, &env).unwrap() {
        Some(Value::Scalar(Scalar::F32(b))) => assert_eq!(f32::from_bits(b), 3.75),
        other => panic!("{other:?}"),
    }
    assert!(matches!(ctx.get_value("%z").unwrap(), Value::Scalar(Scalar::F32(_))));
    assert_eq!(ctx.get_lx(None).used, 0);
}
