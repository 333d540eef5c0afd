use lib::context::CoreContext;
use lib::dialects::linalg::{index, small_int_to_f32_bits, SHAPE_KEY};
use lib::dialects::Dispatch;
use lib::dtypes::DType;
use lib::env::{ExecutionEnv, FloatArith, GridExecutor};
use lib::interpreter::{execute_ops, single_core_context};
use lib::ir::{Attr, Operation, Scalar, Tile, Value};
use lib::shape::{row_major_strides, unravel};
use lib::tensor::{broadcast_to, concat_along, slice_along};

struct HostF32;

impl FloatArith for HostF32 {
    fn addf(&self, a: u32, b: u32) -> u32 {
        (f32::from_bits(a) + f32::from_bits(b)).to_bits()
    }
    fn mulf(&self, a: u32, b: u32) -> u32 {
        (f32::from_bits(a) * f32::from_bits(b)).to_bits()
    }
    fn subf(&self, a: u32, b: u32) -> u32 {
        (f32::from_bits(a) - f32::from_bits(b)).to_bits()
    }
    fn ltf(&self, a: u32, b: u32) -> bool {
        f32::from_bits(a) < f32::from_bits(b)
    }
    fn int_to_f32(&self, x: i64) -> u32 {
        (x as f32).to_bits()
    }
    fn parse_f32(&self, lit: &str) -> Option<u32> {
        lit.parse::<f64>().ok().map(|x| (x as f32).to_bits())
    }
    fn round_to_dtype(&self, x: u32, _dtype: DType) -> u32 {
        x
    }
    fn widen_f16(&self, h: u16) -> u32 {
        let sign = ((h & 0x8000) as u32) << 16;
        let exp = ((h >> 10) & 0x1f) as u32;
        let mant = (h & 0x03ff) as u32;
        if exp == 0 && mant == 0 {
            sign
        } else if exp == 0 {
            (if sign != 0 { -1.0f32 } else { 1.0 } * mant as f32 * 2.0f32.powi(-24)).to_bits()
        } else if exp == 0x1f {
            sign | 0x7f80_0000 | (mant << 13)
        } else {
            sign | ((exp + 127 - 15) << 23) | (mant << 13)
        }
    }
    fn round_to_i64(&self, x: u32) -> i64 {
        f32::from_bits(x).round() as i64
    }
}

fn run(ops: &[Operation], ctx: &mut CoreContext) -> Result<(), String> {
    let dispatch = Dispatch::new();
    let grid = GridExecutor::new((1, 1, 1));
    let env = ExecutionEnv::new(&dispatch, &grid, &HostF32);
    execute_ops(ops, ctx, &env)
}

fn bits(data: &[f32]) -> Vec<u32> {
    data.iter().map(|x| x.to_bits()).collect()
}

fn floats(data: &[u32]) -> Vec<f32> {
    data.iter().map(|b| f32::from_bits(*b)).collect()
}

fn tile(data: Vec<f32>, shape: Vec<usize>) -> Value {
    Value::Tile(Tile {
        data: bits(&data),
        dtype: DType::F32,
        shape,
        unique_sticks: None,
        index_unique_sticks: None,
    })
}

fn get_tile(ctx: &CoreContext, name: &str) -> Tile {
    match ctx.get_value(name).unwrap() {
        Value::Tile(t) => t.clone(),
        other => panic!("expected tile, got {other:?}"),
    }
}

fn get_f32(ctx: &CoreContext, name: &str) -> f32 {
    match ctx.get_value(name).unwrap() {
        Value::Scalar(Scalar::F32(b)) => f32::from_bits(*b),
        other => panic!("expected f32 scalar, got {other:?}"),
    }
}

fn with_shape(dims: &[i64]) -> CoreContext {
    let mut ctx = single_core_context();
    ctx.set_value(SHAPE_KEY, Value::Tuple(dims.iter().map(|d| Value::Index(*d)).collect()));
    ctx
}

// --- fill -------------------------------------------------------------

#[test]
fn fill_broadcasts_scalar() {
    let mut ctx = single_core_context();
    ctx.set_value("%s", Value::Scalar(Scalar::F32(7.0f32.to_bits())));
    ctx.set_value("%init", tile(vec![0.0; 6], vec![2, 3]));
    run(&[Operation::new(Some("%r"), "linalg.fill", &["%s", "%init"])], &mut ctx).unwrap();
    let t = get_tile(&ctx, "%r");
    assert_eq!(floats(&t.data), vec![7.0; 6]);
    assert_eq!(t.shape, vec![2, 3]);
}

#[test]
fn fill_from_index_scalar() {
    let mut ctx = single_core_context();
    ctx.set_value("%s", Value::Index(3));
    ctx.set_value("%init", tile(vec![0.0; 2], vec![2]));
    run(&[Operation::new(Some("%r"), "linalg.fill", &["%s", "%init"])], &mut ctx).unwrap();
    assert_eq!(floats(&get_tile(&ctx, "%r").data), vec![3.0, 3.0]);
}

// --- transpose --------------------------------------------------------

#[test]
fn transpose_2d() {
    let mut ctx = single_core_context();
    // [[1,2,3],[4,5,6]] -> transpose [1,0] -> [[1,4],[2,5],[3,6]]
    ctx.set_value("%x", tile(vec![1.0, 2.0, 3.0, 4.0, 5.0, 6.0], vec![2, 3]));
    ctx.set_value("%y", tile(vec![0.0; 6], vec![3, 2]));
    let op = Operation::new(Some("%r"), "linalg.transpose", &["%x", "%y"])
        .with_attr("permutation", Attr::IntList(vec![1, 0]));
    run(&[op], &mut ctx).unwrap();
    let t = get_tile(&ctx, "%r");
    assert_eq!(t.shape, vec![3, 2]);
    assert_eq!(floats(&t.data), vec![1.0, 4.0, 2.0, 5.0, 3.0, 6.0]);
}

#[test]
fn transpose_identity_permutation() {
    let mut ctx = single_core_context();
    ctx.set_value("%x", tile(vec![1.0, 2.0, 3.0, 4.0], vec![2, 2]));
    ctx.set_value("%y", tile(vec![0.0; 4], vec![2, 2]));
    let op = Operation::new(Some("%r"), "linalg.transpose", &["%x", "%y"])
        .with_attr("permutation", Attr::IntList(vec![0, 1]));
    run(&[op], &mut ctx).unwrap();
    assert_eq!(floats(&get_tile(&ctx, "%r").data), vec![1.0, 2.0, 3.0, 4.0]);
}

#[test]
fn transpose_3d_permutation() {
    let mut ctx = single_core_context();
    // shape [2,1,3], permute [1,2,0] -> shape [1,3,2]; out[a,b,c]=in[c,a,b].
    let data: Vec<f32> = (0..6).map(|x| x as f32).collect();
    ctx.set_value("%x", tile(data, vec![2, 1, 3]));
    ctx.set_value("%y", tile(vec![0.0; 6], vec![1, 3, 2]));
    let op = Operation::new(Some("%r"), "linalg.transpose", &["%x", "%y"])
        .with_attr("permutation", Attr::IntList(vec![1, 2, 0]));
    run(&[op], &mut ctx).unwrap();
    let t = get_tile(&ctx, "%r");
    assert_eq!(t.shape, vec![1, 3, 2]);
    assert_eq!(floats(&t.data), vec![0.0, 3.0, 1.0, 4.0, 2.0, 5.0]);
}

#[test]
fn transpose_rejects_repeated_or_missing_axes() {
    let mut ctx = single_core_context();
    ctx.set_value("%x", tile(vec![1.0, 2.0, 3.0, 4.0], vec![2, 2]));
    ctx.set_value("%y", tile(vec![0.0; 4], vec![2, 2]));
    let repeated = Operation::new(Some("%r"), "linalg.transpose", &["%x", "%y"])
        .with_attr("permutation", Attr::IntList(vec![0, 0]));
    assert!(run(&[repeated], &mut ctx).is_err());
    let short = Operation::new(Some("%r"), "linalg.transpose", &["%x", "%y"])
        .with_attr("permutation", Attr::IntList(vec![0]));
    assert!(run(&[short], &mut ctx).is_err());
    let missing = Operation::new(Some("%r"), "linalg.transpose", &["%x", "%y"]);
    assert!(run(&[missing], &mut ctx).is_err());
}

// --- broadcast --------------------------------------------------------

#[test]
fn broadcast_along_dim() {
    let mut ctx = single_core_context();
    // ins [3], broadcast dim 1 -> expand to [3,1] -> [3,4]: rows constant.
    ctx.set_value("%x", tile(vec![1.0, 2.0, 3.0], vec![3]));
    ctx.set_value("%y", tile(vec![0.0; 12], vec![3, 4]));
    let op = Operation::new(Some("%r"), "linalg.broadcast", &["%x", "%y"])
        .with_attr("dimensions", Attr::IntList(vec![1]));
    run(&[op], &mut ctx).unwrap();
    let t = get_tile(&ctx, "%r");
    assert_eq!(t.shape, vec![3, 4]);
    assert_eq!(
        floats(&t.data),
        vec![1.0, 1.0, 1.0, 1.0, 2.0, 2.0, 2.0, 2.0, 3.0, 3.0, 3.0, 3.0]
    );
}

#[test]
fn broadcast_leading_dim() {
    let mut ctx = single_core_context();
    // ins [4], broadcast dim 0 -> [1,4] -> [3,4]: each row identical.
    ctx.set_value("%x", tile(vec![1.0, 2.0, 3.0, 4.0], vec![4]));
    ctx.set_value("%y", tile(vec![0.0; 12], vec![3, 4]));
    let op = Operation::new(Some("%r"), "linalg.broadcast", &["%x", "%y"])
        .with_attr("dimensions", Attr::IntList(vec![0]));
    run(&[op], &mut ctx).unwrap();
    let t = get_tile(&ctx, "%r");
    assert_eq!(
        floats(&t.data),
        vec![1.0, 2.0, 3.0, 4.0, 1.0, 2.0, 3.0, 4.0, 1.0, 2.0, 3.0, 4.0]
    );
}

#[test]
fn broadcast_sorts_dimensions_and_rejects_out_of_range() {
    let mut ctx = single_core_context();
    // ins [2], dims [2, 0] sorted to [0, 2]: [2] -> [1,2] -> [1,2,1] -> [3,2,2].
    ctx.set_value("%x", tile(vec![5.0, 6.0], vec![2]));
    ctx.set_value("%y", tile(vec![0.0; 12], vec![3, 2, 2]));
    let op = Operation::new(Some("%r"), "linalg.broadcast", &["%x", "%y"])
        .with_attr("dimensions", Attr::IntList(vec![2, 0]));
    run(&[op], &mut ctx).unwrap();
    let t = get_tile(&ctx, "%r");
    assert_eq!(t.shape, vec![3, 2, 2]);
    assert_eq!(
        floats(&t.data),
        vec![5.0, 5.0, 6.0, 6.0, 5.0, 5.0, 6.0, 6.0, 5.0, 5.0, 6.0, 6.0]
    );
    let bad = Operation::new(Some("%q"), "linalg.broadcast", &["%x", "%y"])
        .with_attr("dimensions", Attr::IntList(vec![5]));
    assert!(run(&[bad], &mut ctx).is_err());
}

// --- matmul -----------------------------------------------------------

#[test]
fn matmul_plain() {
    let mut ctx = single_core_context();
    // A=[[1,2],[3,4]], B=[[5,6],[7,8]] -> [[19,22],[43,50]]
    ctx.set_value("%a", tile(vec![1.0, 2.0, 3.0, 4.0], vec![2, 2]));
    ctx.set_value("%b", tile(vec![5.0, 6.0, 7.0, 8.0], vec![2, 2]));
    run(&[Operation::new(Some("%r"), "linalg.matmul", &["%a", "%b"])], &mut ctx).unwrap();
    let t = get_tile(&ctx, "%r");
    assert_eq!(t.shape, vec![2, 2]);
    assert_eq!(floats(&t.data), vec![19.0, 22.0, 43.0, 50.0]);
}

#[test]
fn matmul_accumulates_outs() {
    let mut ctx = single_core_context();
    ctx.set_value("%a", tile(vec![1.0, 2.0, 3.0, 4.0], vec![2, 2]));
    ctx.set_value("%b", tile(vec![5.0, 6.0, 7.0, 8.0], vec![2, 2]));
    ctx.set_value("%c", tile(vec![1.0, 1.0, 1.0, 1.0], vec![2, 2]));
    run(&[Operation::new(Some("%r"), "linalg.matmul", &["%a", "%b", "%c"])], &mut ctx).unwrap();
    let t = get_tile(&ctx, "%r");
    assert_eq!(floats(&t.data), vec![20.0, 23.0, 44.0, 51.0]);
}

#[test]
fn matmul_nonsquare() {
    let mut ctx = single_core_context();
    // A [2x3], B [3x2] -> [2x2]
    ctx.set_value("%a", tile(vec![1.0, 2.0, 3.0, 4.0, 5.0, 6.0], vec![2, 3]));
    ctx.set_value("%b", tile(vec![7.0, 8.0, 9.0, 10.0, 11.0, 12.0], vec![3, 2]));
    run(&[Operation::new(Some("%r"), "linalg.matmul", &["%a", "%b"])], &mut ctx).unwrap();
    let t = get_tile(&ctx, "%r");
    assert_eq!(t.shape, vec![2, 2]);
    // row0: [58, 64], row1: [139, 154]
    assert_eq!(floats(&t.data), vec![58.0, 64.0, 139.0, 154.0]);
}

#[test]
fn matmul_rejects_inner_dim_mismatch() {
    let mut ctx = single_core_context();
    ctx.set_value("%a", tile(vec![1.0, 2.0], vec![1, 2]));
    ctx.set_value("%b", tile(vec![1.0, 2.0, 3.0], vec![3, 1]));
    let err = run(&[Operation::new(Some("%r"), "linalg.matmul", &["%a", "%b"])], &mut ctx).unwrap_err();
    assert!(err.contains("inner dims disagree"));
}

#[test]
fn matmul_rejects_outs_of_another_shape() {
    let mut ctx = single_core_context();
    ctx.set_value("%a", tile(vec![1.0, 2.0, 3.0, 4.0], vec![2, 2]));
    ctx.set_value("%b", tile(vec![5.0, 6.0, 7.0, 8.0], vec![2, 2]));
    ctx.set_value("%c", tile(vec![1.0, 1.0], vec![1, 2]));
    let op = Operation::new(Some("%r"), "linalg.matmul", &["%a", "%b", "%c"]);
    assert!(run(&[op], &mut ctx).is_err());
}

#[test]
fn batch_matmul_two_batches() {
    let mut ctx = single_core_context();
    // batch0: [[1,2],[3,4]] @ I = same. batch1: I @ [[5,6],[7,8]] = same.
    ctx.set_value("%a", tile(vec![1.0, 2.0, 3.0, 4.0, 1.0, 0.0, 0.0, 1.0], vec![2, 2, 2]));
    ctx.set_value("%b", tile(vec![1.0, 0.0, 0.0, 1.0, 5.0, 6.0, 7.0, 8.0], vec![2, 2, 2]));
    run(&[Operation::new(Some("%r"), "linalg.batch_matmul", &["%a", "%b"])], &mut ctx).unwrap();
    let t = get_tile(&ctx, "%r");
    assert_eq!(t.shape, vec![2, 2, 2]);
    assert_eq!(floats(&t.data), vec![1.0, 2.0, 3.0, 4.0, 5.0, 6.0, 7.0, 8.0]);
}

// --- reduce -----------------------------------------------------------

fn addf_combiner_region() -> Vec<Operation> {
    // (%in, %out) { %s = arith.addf %in, %out ; linalg.yield %s }
    vec![
        Operation::new(Some("%s"), "arith.addf", &["%in", "%out"]),
        Operation::new(None, "linalg.yield", &["%s"]),
    ]
}

#[test]
fn reduce_all_to_scalar_explicit_region() {
    let mut ctx = single_core_context();
    ctx.set_value("%x", tile(vec![1.0, 2.0, 3.0, 4.0], vec![4]));
    let mut op = Operation::new(Some("%r"), "linalg.reduce", &["%x"]);
    op.regions.push(addf_combiner_region());
    run(&[op], &mut ctx).unwrap();
    assert_eq!(get_f32(&ctx, "%r"), 10.0);
}

#[test]
fn reduce_all_odd_length() {
    let mut ctx = single_core_context();
    // 5 elements exercises the odd-carry path in the tree fold.
    ctx.set_value("%x", tile(vec![1.0, 2.0, 3.0, 4.0, 5.0], vec![5]));
    let mut op = Operation::new(Some("%r"), "linalg.reduce", &["%x"]);
    op.regions.push(addf_combiner_region());
    run(&[op], &mut ctx).unwrap();
    assert_eq!(get_f32(&ctx, "%r"), 15.0);
}

#[test]
fn reduce_along_dim_keeps_other_axis() {
    let mut ctx = single_core_context();
    // [[1,2,3],[4,5,6]] reduce dim=1 -> [6, 15]
    ctx.set_value("%x", tile(vec![1.0, 2.0, 3.0, 4.0, 5.0, 6.0], vec![2, 3]));
    let mut op = Operation::new(Some("%r"), "linalg.reduce", &["%x"]).with_attr("dim", Attr::Int(1));
    op.regions.push(addf_combiner_region());
    run(&[op], &mut ctx).unwrap();
    let t = get_tile(&ctx, "%r");
    assert_eq!(t.shape, vec![2]);
    assert_eq!(floats(&t.data), vec![6.0, 15.0]);
}

#[test]
fn reduce_along_dim0() {
    let mut ctx = single_core_context();
    // [[1,2,3],[4,5,6]] reduce dim=0 -> [5,7,9]
    ctx.set_value("%x", tile(vec![1.0, 2.0, 3.0, 4.0, 5.0, 6.0], vec![2, 3]));
    let mut op = Operation::new(Some("%r"), "linalg.reduce", &["%x"]).with_attr("dim", Attr::Int(0));
    op.regions.push(addf_combiner_region());
    run(&[op], &mut ctx).unwrap();
    let t = get_tile(&ctx, "%r");
    assert_eq!(t.shape, vec![3]);
    assert_eq!(floats(&t.data), vec![5.0, 7.0, 9.0]);
}

#[test]
fn reduce_dim1_odd_extent() {
    let mut ctx = single_core_context();
    // [[1,2,3],[4,5,6]] dim=1 odd extent 3 -> [6,15] exercises odd carry on a 2-D fold.
    ctx.set_value("%x", tile(vec![1.0, 2.0, 3.0, 4.0, 5.0, 6.0], vec![2, 3]));
    let mut op = Operation::new(Some("%r"), "linalg.reduce", &["%x"]).with_attr("dim", Attr::Int(1));
    op.regions.push(addf_combiner_region());
    run(&[op], &mut ctx).unwrap();
    assert_eq!(floats(&get_tile(&ctx, "%r").data), vec![6.0, 15.0]);
}

#[test]
fn reduce_shorthand_synthesizes_region() {
    let mut ctx = single_core_context();
    ctx.set_value("%x", tile(vec![2.0, 4.0, 6.0, 8.0], vec![4]));
    // Shorthand: reduce_fn attribute, no region.
    let op = Operation::new(Some("%r"), "linalg.reduce", &["%x"])
        .with_attr("reduce_fn", Attr::Str("arith.addf".into()));
    run(&[op], &mut ctx).unwrap();
    assert_eq!(get_f32(&ctx, "%r"), 20.0);
}

#[test]
fn reduce_mul_combiner() {
    let mut ctx = single_core_context();
    ctx.set_value("%x", tile(vec![1.0, 2.0, 3.0, 4.0], vec![4]));
    let op = Operation::new(Some("%r"), "linalg.reduce", &["%x"])
        .with_attr("reduce_fn", Attr::Str("arith.mulf".into()));
    run(&[op], &mut ctx).unwrap();
    assert_eq!(get_f32(&ctx, "%r"), 24.0);
}

#[test]
fn reduce_binds_outs_var() {
    let mut ctx = single_core_context();
    ctx.set_value("%x", tile(vec![1.0, 2.0, 3.0], vec![3]));
    let op = Operation::new(Some("%r"), "linalg.reduce", &["%x"])
        .with_attr("reduce_fn", Attr::Str("arith.addf".into()))
        .with_attr("outs_var", Attr::Str("%acc".into()));
    run(&[op], &mut ctx).unwrap();
    // Both %r and %acc resolve to the reduced scalar.
    assert_eq!(get_f32(&ctx, "%acc"), 6.0);
}

#[test]
fn reduce_scalar_input_passthrough() {
    let mut ctx = single_core_context();
    ctx.set_value("%x", Value::Scalar(Scalar::F32(42.0f32.to_bits())));
    let op = Operation::new(Some("%r"), "linalg.reduce", &["%x"])
        .with_attr("reduce_fn", Attr::Str("arith.addf".into()));
    run(&[op], &mut ctx).unwrap();
    assert_eq!(get_f32(&ctx, "%r"), 42.0);
}

#[test]
fn reduce_rejects_dim_out_of_range_and_region_combiners() {
    let mut ctx = single_core_context();
    ctx.set_value("%x", tile(vec![1.0, 2.0, 3.0, 4.0], vec![2, 2]));
    let mut op = Operation::new(Some("%r"), "linalg.reduce", &["%x"]).with_attr("dim", Attr::Int(2));
    op.regions.push(addf_combiner_region());
    assert!(run(&[op], &mut ctx).is_err());
    let nested = Operation::new(Some("%r"), "linalg.reduce", &["%x"])
        .with_attr("reduce_fn", Attr::Str("linalg.reduce".into()));
    assert!(run(&[nested], &mut ctx).is_err());
}

// --- generic ----------------------------------------------------------

#[test]
fn generic_elementwise_add() {
    let mut ctx = single_core_context();
    // ^bb0(%a, %b, %out): %s = addf %a, %b ; yield %s
    ctx.set_value("%x", tile(vec![1.0, 2.0, 3.0], vec![3]));
    ctx.set_value("%y", tile(vec![10.0, 20.0, 30.0], vec![3]));
    ctx.set_value("%init", tile(vec![0.0; 3], vec![3]));
    let mut op = Operation::new(Some("%r"), "linalg.generic", &["%x", "%y", "%init"])
        .with_attr("n_ins", Attr::Int(2))
        .with_attr("bb0_names", Attr::StrList(vec!["%a".into(), "%b".into(), "%out".into()]));
    op.regions.push(vec![
        Operation::new(Some("%s"), "arith.addf", &["%a", "%b"]),
        Operation::new(None, "linalg.yield", &["%s"]),
    ]);
    run(&[op], &mut ctx).unwrap();
    let t = get_tile(&ctx, "%r");
    assert_eq!(floats(&t.data), vec![11.0, 22.0, 33.0]);
}

#[test]
fn generic_uses_outs_block_arg() {
    let mut ctx = single_core_context();
    // ^bb0(%a, %out): %s = addf %a, %out ; yield %s  — accumulate into outs.
    ctx.set_value("%x", tile(vec![1.0, 2.0, 3.0], vec![3]));
    ctx.set_value("%init", tile(vec![100.0, 200.0, 300.0], vec![3]));
    let mut op = Operation::new(Some("%r"), "linalg.generic", &["%x", "%init"])
        .with_attr("n_ins", Attr::Int(1))
        .with_attr("bb0_names", Attr::StrList(vec!["%a".into(), "%out".into()]));
    op.regions.push(vec![
        Operation::new(Some("%s"), "arith.addf", &["%a", "%out"]),
        Operation::new(None, "linalg.yield", &["%s"]),
    ]);
    run(&[op], &mut ctx).unwrap();
    let t = get_tile(&ctx, "%r");
    assert_eq!(floats(&t.data), vec![101.0, 202.0, 303.0]);
}

#[test]
fn generic_broadcasts_input_via_indexing_map() {
    let mut ctx = single_core_context();
    // out [2,3]. input %x shape [3] maps to dim 1 only (indexing_maps "1"),
    // so it broadcasts across rows. addf with the [2,3] outs (all zero).
    ctx.set_value("%x", tile(vec![10.0, 20.0, 30.0], vec![3]));
    ctx.set_value("%init", tile(vec![0.0; 6], vec![2, 3]));
    let mut op = Operation::new(Some("%r"), "linalg.generic", &["%x", "%init"])
        .with_attr("n_ins", Attr::Int(1))
        .with_attr("bb0_names", Attr::StrList(vec!["%a".into(), "%out".into()]))
        .with_attr("indexing_maps", Attr::StrList(vec!["1".into(), "0,1".into()]));
    op.regions.push(vec![
        Operation::new(Some("%s"), "arith.addf", &["%a", "%out"]),
        Operation::new(None, "linalg.yield", &["%s"]),
    ]);
    run(&[op], &mut ctx).unwrap();
    let t = get_tile(&ctx, "%r");
    assert_eq!(t.shape, vec![2, 3]);
    // Each row is [10,20,30].
    assert_eq!(floats(&t.data), vec![10.0, 20.0, 30.0, 10.0, 20.0, 30.0]);
}

#[test]
fn generic_yield_passthrough() {
    let mut ctx = single_core_context();
    // body just yields the input arg unchanged.
    ctx.set_value("%x", tile(vec![1.0, 2.0, 3.0, 4.0], vec![2, 2]));
    ctx.set_value("%init", tile(vec![0.0; 4], vec![2, 2]));
    let mut op = Operation::new(Some("%r"), "linalg.generic", &["%x", "%init"])
        .with_attr("n_ins", Attr::Int(1))
        .with_attr("bb0_names", Attr::StrList(vec!["%a".into(), "%out".into()]));
    op.regions.push(vec![Operation::new(None, "linalg.yield", &["%a"])]);
    run(&[op], &mut ctx).unwrap();
    assert_eq!(floats(&get_tile(&ctx, "%r").data), vec![1.0, 2.0, 3.0, 4.0]);
}

#[test]
fn generic_requires_bb0_names() {
    let mut ctx = single_core_context();
    ctx.set_value("%x", tile(vec![1.0], vec![1]));
    ctx.set_value("%init", tile(vec![0.0], vec![1]));
    let op = Operation::new(Some("%r"), "linalg.generic", &["%x", "%init"])
        .with_attr("n_ins", Attr::Int(1));
    // No region, no bb0_names -> error.
    let err = run(&[op], &mut ctx).unwrap_err();
    assert!(err.contains("cannot determine bb0"));
}

#[test]
fn generic_index_reads_the_iteration_shape() {
    let mut ctx = single_core_context();
    // out [2,3]: yield linalg.index 1 -> each row is [0,1,2].
    ctx.set_value("%init", tile(vec![0.0; 6], vec![2, 3]));
    let mut op = Operation::new(Some("%r"), "linalg.generic", &["%init"])
        .with_attr("n_ins", Attr::Int(0))
        .with_attr("bb0_names", Attr::StrList(vec!["%out".into()]));
    op.regions.push(vec![
        Operation::new(Some("%i"), "linalg.index", &[]).with_attr("dim", Attr::Int(1)),
        Operation::new(None, "linalg.yield", &["%i"]),
    ]);
    run(&[op], &mut ctx).unwrap();
    let t = get_tile(&ctx, "%r");
    assert_eq!(t.shape, vec![2, 3]);
    assert_eq!(floats(&t.data), vec![0.0, 1.0, 2.0, 0.0, 1.0, 2.0]);
    assert_eq!(t.dtype, DType::F32);
}

// --- index ------------------------------------------------------------

#[test]
fn index_builds_arange() {
    let ctx = with_shape(&[2, 3]);
    let op = Operation::new(Some("%i"), "linalg.index", &[]).with_attr("dim", Attr::Int(1));
    let v = index(&op, &ctx).unwrap().unwrap();
    match v {
        Value::Tile(t) => {
            assert_eq!(t.shape, vec![1, 3]);
            assert_eq!(t.data, vec![0.0f32.to_bits(), 1.0f32.to_bits(), 2.0f32.to_bits()]);
            assert_eq!(t.dtype, DType::I32);
        }
        other => panic!("expected index tile, got {other:?}"),
    }
}

#[test]
fn index_dim0() {
    let ctx = with_shape(&[4, 2]);
    let op = Operation::new(Some("%i"), "linalg.index", &[]).with_attr("dim", Attr::Int(0));
    let v = index(&op, &ctx).unwrap().unwrap();
    match v {
        Value::Tile(t) => {
            assert_eq!(t.shape, vec![4, 1]);
            assert_eq!(
                t.data,
                vec![0.0f32.to_bits(), 1.0f32.to_bits(), 2.0f32.to_bits(), 3.0f32.to_bits()]
            );
        }
        other => panic!("got {other:?}"),
    }
}

#[test]
fn index_errors() {
    // dim out of range
    let ctx = with_shape(&[2]);
    let op = Operation::new(Some("%i"), "linalg.index", &[]).with_attr("dim", Attr::Int(1));
    assert!(index(&op, &ctx).is_err());
    // no iteration shape bound
    let ctx = single_core_context();
    let op = Operation::new(Some("%i"), "linalg.index", &[]);
    assert!(index(&op, &ctx).is_err());
}

#[test]
fn small_ints_match_host_f32_bits() {
    for n in [0u32, 1, 2, 3, 7, 8, 100, 1023, 65535, 1 << 20, (1 << 24) - 1] {
        assert_eq!(small_int_to_f32_bits(n), (n as f32).to_bits(), "n = {n}");
    }
}

// --- helper unit tests ------------------------------------------------

#[test]
fn broadcast_to_rules() {
    // [1,3] -> [2,3]
    assert_eq!(
        floats(&broadcast_to(&bits(&[1.0, 2.0, 3.0]), &[1, 3], &[2, 3]).unwrap()),
        vec![1.0, 2.0, 3.0, 1.0, 2.0, 3.0]
    );
    // [3,1] -> [3,2]
    assert_eq!(
        floats(&broadcast_to(&bits(&[1.0, 2.0, 3.0]), &[3, 1], &[3, 2]).unwrap()),
        vec![1.0, 1.0, 2.0, 2.0, 3.0, 3.0]
    );
    // rank-extend: [3] -> [2,3]
    assert_eq!(
        floats(&broadcast_to(&bits(&[1.0, 2.0, 3.0]), &[3], &[2, 3]).unwrap()),
        vec![1.0, 2.0, 3.0, 1.0, 2.0, 3.0]
    );
    // incompatible
    assert!(broadcast_to(&bits(&[1.0, 2.0]), &[2], &[3]).is_none());
}

#[test]
fn slice_and_concat_roundtrip() {
    let shape = vec![2, 4];
    let data: Vec<f32> = (0..8).map(|x| x as f32).collect();
    let (left, ls) = slice_along(&bits(&data), &shape, 1, 0, 2);
    let (right, _rs) = slice_along(&bits(&data), &shape, 1, 2, 4);
    assert_eq!(ls, vec![2, 2]);
    assert_eq!(floats(&left), vec![0.0, 1.0, 4.0, 5.0]);
    assert_eq!(floats(&right), vec![2.0, 3.0, 6.0, 7.0]);
    let cat = concat_along(&left, &ls, &right, 1);
    assert_eq!(floats(&cat), data);
}

#[test]
fn strides_and_unravel() {
    assert_eq!(row_major_strides(&[2, 3, 4]), vec![12, 4, 1]);
    assert_eq!(unravel(7, &[2, 4]), vec![1, 3]);
    assert_eq!(unravel(0, &[2, 3]), vec![0, 0]);
}

#[test]
fn uneven_split_concatenates_back() {
    // shape [3,2], split axis 0 at 1: [[0,1]] and [[2,3],[4,5]].
    let shape = vec![3, 2];
    let data = bits(&[0.0, 1.0, 2.0, 3.0, 4.0, 5.0]);
    let (top, ts) = slice_along(&data, &shape, 0, 0, 1);
    let (rest, rs) = slice_along(&data, &shape, 0, 1, 3);
    assert_eq!(ts, vec![1, 2]);
    assert_eq!(rs, vec![2, 2]);
    assert_eq!(floats(&top), vec![0.0, 1.0]);
    assert_eq!(concat_along(&top, &ts, &rest, 0), data);
    // an empty slice on either side changes nothing
    let (none, ns) = slice_along(&data, &shape, 1, 0, 0);
    let (all, _) = slice_along(&data, &shape, 1, 0, 2);
    assert!(none.is_empty());
    assert_eq!(concat_along(&none, &ns, &all, 1), data);
}

#[test]
fn batch_matmul_adds_outs_per_batch() {
    let mut ctx = single_core_context();
    // batch0: [[1,2]] @ [[3],[4]] = 11; batch1: [[2,0]] @ [[5],[9]] = 10; plus outs [1, 2]
    ctx.set_value("%a", tile(vec![1.0, 2.0, 2.0, 0.0], vec![2, 1, 2]));
    ctx.set_value("%b", tile(vec![3.0, 4.0, 5.0, 9.0], vec![2, 2, 1]));
    ctx.set_value("%c", tile(vec![1.0, 2.0], vec![2, 1, 1]));
    run(&[Operation::new(Some("%r"), "linalg.batch_matmul", &["%a", "%b", "%c"])], &mut ctx).unwrap();
    let t = get_tile(&ctx, "%r");
    assert_eq!(t.shape, vec![2, 1, 1]);
    assert_eq!(floats(&t.data), vec![12.0, 12.0]);
}
