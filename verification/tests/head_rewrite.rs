use lib::dtypes::DType;
use lib::env::FloatArith;
use lib::head_rewrite::{
    apply_head_rewrite, causal_mask_mm, mk_view, recognize_head_attention, rewrite_head_attention,
    HeadAttnIsland,
};
use lib::ir::{Attr, IRFunction, IRModule, Operation};

struct HostF32;

impl FloatArith for HostF32 {
    fn addf(&self, a: u32, b: u32) -> u32 {
        (f32::from_bits(a) + f32::from_bits(b)).to_bits()
    }
    fn mulf(&self, a: u32, b: u32) -> u32 {
        (f32::from_bits(a) * f32::from_bits(b)).to_bits()
    }
    fn subf(&self, a: u32, b: u32) -> u32 {
        (f32::from_bits(a) - f32::from_bits(b)).to_bits()
    }
    fn ltf(&self, a: u32, b: u32) -> bool {
        f32::from_bits(a) < f32::from_bits(b)
    }
    fn int_to_f32(&self, x: i64) -> u32 {
        (x as f32).to_bits()
    }
    fn parse_f32(&self, lit: &str) -> Option<u32> {
        lit.trim().parse::<f64>().ok().map(|x| (x as f32).to_bits())
    }
    fn round_to_dtype(&self, x: u32, _dtype: DType) -> u32 {
        x
    }
    fn widen_f16(&self, h: u16) -> u32 {
        let sign = ((h & 0x8000) as u32) << 16;
        let exp = ((h >> 10) & 0x1f) as u32;
        let mant = (h & 0x03ff) as u32;
        if exp == 0 && mant == 0 {
            sign
        } else if exp == 0 {
            (if sign != 0 { -1.0f32 } else { 1.0 } * mant as f32 * 2.0f32.powi(-24)).to_bits()
        } else if exp == 0x1f {
            sign | 0x7f80_0000 | (mant << 13)
        } else {
            sign | ((exp + 127 - 15) << 23) | (mant << 13)
        }
    }
    fn round_to_i64(&self, x: u32) -> i64 {
        f32::from_bits(x).round() as i64
    }
}

/// A synthetic island matching the smollm shape (H=9, m=8, gqac=3, d=64,
/// cap=64).
fn smollm_island() -> HeadAttnIsland {
    HeadAttnIsland {
        q_arg: "%q".into(),
        o_arg: "%o".into(),
        mask_arg: "%mask".into(),
        kc_arg: "%kc".into(),
        kd_arg: "%kd".into(),
        vc_arg: "%vc".into(),
        vd_arg: "%vd".into(),
        q_cols: 576,
        kv_cols: 192,
        m: 8,
        cap: 64,
        d: 64,
        gqac: 3,
        hdc: 64,
        h: 9,
        scale: "0.125".into(),
        scale_bits: 0.125f32.to_bits(),
        ninf: "-1.0e38".into(),
        ninf_bits: (-1.0e38f32).to_bits(),
        dtype: "f16".into(),
    }
}

fn count(f: &IRFunction, t: &str) -> usize {
    f.operations.iter().filter(|o| o.op_type == t).count()
}

#[test]
fn rewrite_preserves_grid_and_args() {
    let isl = smollm_island();
    let f = rewrite_head_attention(&isl);
    assert_eq!(f.grid, (9, 1, 1));
    let names: Vec<&str> = f.arguments.iter().map(|(n, _)| n.as_str()).collect();
    assert_eq!(names, vec!["%q", "%o", "%mask", "%kc", "%kd", "%vc", "%vd"]);
}

#[test]
fn rewrite_emits_no_control_flow_and_one_store() {
    let isl = smollm_island();
    let f = rewrite_head_attention(&isl);
    assert!(
        !f.operations.iter().any(|o| o.op_type.starts_with("scf.")),
        "re-roll must be region-free"
    );
    assert_eq!(count(&f, "ktdp.store"), 1, "one whole-row store");
    assert_eq!(count(&f, "linalg.matmul"), 4, "two QK^T + two AV, once");
    assert!(f.operations.iter().any(|o| o.op_type == "ktdp.get_compute_tile_id"));
    assert!(f.operations.iter().any(|o| o.op_type == "arith.divui"));
    assert_eq!(count(&f, "arith.muli"), 2, "qcol = hpid*hdc and kvcol = (hpid/gqac)*hdc");
}

#[test]
fn causal_mask_is_lower_triangular() {
    let op = causal_mask_mm("%tri", 4, "-1.0e38", "f16");
    let vals = match op.get_attr("value") {
        Some(Attr::FloatList(v)) => v.clone(),
        other => panic!("mask value not a FloatList: {other:?}"),
    };
    assert_eq!(vals.len(), 16);
    for r in 0..4usize {
        for k in 0..4usize {
            let v: f64 = vals[r * 4 + k].parse().unwrap();
            if k <= r {
                assert_eq!(v, 0.0, "[{r},{k}] visible");
            } else {
                assert!(v < -1.0e30, "[{r},{k}] masked");
            }
        }
    }
}

#[test]
fn rejects_single_core_grid() {
    let f = IRFunction {
        name: "x".into(),
        arguments: vec![],
        operations: vec![Operation::new(None, "ktdp.store", &["%a", "%b"])],
        grid: (1, 1, 1),
        return_type: None,
    };
    assert!(recognize_head_attention(&f, &HostF32).is_none());
}

#[test]
fn rejects_region_bearing() {
    let mut forop = Operation::new(None, "scf.for", &["%x", "%y", "%z"]);
    forop.regions = vec![vec![Operation::new(None, "scf.yield", &[])]];
    let f = IRFunction {
        name: "x".into(),
        arguments: vec![],
        operations: vec![forop, Operation::new(None, "ktdp.store", &["%a", "%b"])],
        grid: (9, 1, 1),
        return_type: None,
    };
    assert!(recognize_head_attention(&f, &HostF32).is_none());
}

#[test]
fn rejects_plain_copy() {
    let f = IRFunction {
        name: "copy".into(),
        arguments: vec![("%in".into(), "index".into()), ("%out".into(), "index".into())],
        grid: (9, 1, 1),
        return_type: None,
        operations: vec![
            mk_view("%vi", "%in", 8, 64, "f16"),
            Operation::new(Some("%ti"), "ktdp.construct_access_tile", &["%vi"])
                .with_attr("shape", Attr::IntList(vec![8, 64])),
            Operation::new(Some("%l"), "ktdp.load", &["%ti"]),
            Operation::new(Some("%y"), "math.exp", &["%l"]),
            mk_view("%vo", "%out", 8, 64, "f16"),
            Operation::new(Some("%to"), "ktdp.construct_access_tile", &["%vo"])
                .with_attr("shape", Attr::IntList(vec![8, 64])),
            Operation::new(None, "ktdp.store", &["%y", "%to"]),
            Operation::new(None, "func.return", &[]),
        ],
    };
    assert!(recognize_head_attention(&f, &HostF32).is_none());
}

#[test]
fn scores_bytes_matches_m_cap_dtype() {
    let isl = smollm_island();
    assert_eq!(isl.scores_bytes(), 8 * 64 * 2);
    let mut wide = smollm_island();
    wide.dtype = "f32".into();
    assert_eq!(wide.scores_bytes(), 8 * 64 * 4);
    let mut huge = smollm_island();
    huge.m = i64::MAX;
    huge.cap = i64::MAX;
    assert_eq!(huge.scores_bytes(), usize::MAX);
}

// --- a complete unrolled head-parallel body -----------------------------

fn tile_op(res: &str, view: &str, row: &str, shape: Vec<i64>) -> Operation {
    Operation::new(Some(res), "ktdp.construct_access_tile", &[view, row, "%col"])
        .with_attr("shape", Attr::IntList(shape))
}

fn int_const(res: &str, v: i64) -> Operation {
    Operation::new(Some(res), "arith.constant", &[]).with_attr("value", Attr::Int(v))
}

fn float_const(res: &str, lit: &str) -> Operation {
    Operation::new(Some(res), "arith.constant", &[]).with_attr("value", Attr::Float(lit.into()))
}

/// Grid (2,1,1), m = 2 query rows, d = 4, cap = 3, kv_cols = 4; the scales
/// of the two blocks written differently (`diag_scale`).
fn unrolled_attention(diag_scale: &str) -> IRFunction {
    let (m, d, cap, q_cols, kv_cols) = (2i64, 4i64, 3i64, 8i64, 4i64);
    let mut ops = vec![
        mk_view("%v0", "%q", m, q_cols, "f16"),
        mk_view("%v1", "%o", m, q_cols, "f16"),
        mk_view("%v2", "%mask", 1, cap, "f16"),
        mk_view("%v5", "%kc", cap, kv_cols, "f16"),
        mk_view("%v6", "%kd", m, kv_cols, "f16"),
        mk_view("%v7", "%vc", cap, kv_cols, "f16"),
        mk_view("%v8", "%vd", m, kv_cols, "f16"),
        Operation::new(Some("%hpid"), "ktdp.get_compute_tile_id", &[]),
        int_const("%gq", 3),
        Operation::new(Some("%kvh"), "arith.divui", &["%hpid", "%gq"]),
        int_const("%r0", 0),
        int_const("%r1", 1),
        float_const("%s", "0.125"),
        float_const("%sd", diag_scale),
        float_const("%ninf", "-1.0e38"),
    ];
    for r in 0..m {
        let n = |x: &str| format!("%{x}_{r}");
        let row = format!("%r{r}");
        ops.push(tile_op(&n("tq"), "%v0", &row, vec![1, d]));
        ops.push(Operation::new(Some(&n("q")), "ktdp.load", &[&n("tq")]));
        ops.push(tile_op(&n("tkc"), "%v5", "%r0", vec![cap, d]));
        ops.push(Operation::new(Some(&n("kc")), "ktdp.load", &[&n("tkc")]));
        ops.push(tile_op(&n("tkd"), "%v6", "%r0", vec![r + 1, d]));
        ops.push(Operation::new(Some(&n("kd")), "ktdp.load", &[&n("tkd")]));
        ops.push(tile_op(&n("tvc"), "%v7", "%r0", vec![cap, d]));
        ops.push(Operation::new(Some(&n("vc")), "ktdp.load", &[&n("tvc")]));
        ops.push(tile_op(&n("tvd"), "%v8", "%r0", vec![r + 1, d]));
        ops.push(Operation::new(Some(&n("vd")), "ktdp.load", &[&n("tvd")]));
        ops.push(tile_op(&n("tm"), "%v2", "%r0", vec![1, cap]));
        ops.push(Operation::new(Some(&n("mk")), "ktdp.load", &[&n("tm")]));
        // context scores
        ops.push(Operation::new(Some(&n("kct")), "linalg.transpose", &[&n("kc")]));
        ops.push(Operation::new(Some(&n("rawc")), "linalg.matmul", &[&n("q"), &n("kct")]));
        ops.push(Operation::new(Some(&n("splc")), "tensor.splat", &["%s"]));
        ops.push(Operation::new(Some(&n("scaledc")), "arith.mulf", &[&n("rawc"), &n("splc")]));
        ops.push(Operation::new(Some(&n("scm")), "arith.addf", &[&n("scaledc"), &n("mk")]));
        ops.push(Operation::new(Some(&n("ninit")), "tensor.splat", &["%ninf"]));
        ops.push(
            Operation::new(Some(&n("mx")), "linalg.reduce", &[&n("scm")])
                .with_attr("reduce_fn", Attr::Str("arith.maximumf".into()))
                .with_attr("outs_var", Attr::Str(n("ninit"))),
        );
        ops.push(Operation::new(Some(&n("subc")), "arith.subf", &[&n("scm"), "%g"]));
        ops.push(Operation::new(Some(&n("expc")), "math.exp", &[&n("subc")]));
        ops.push(Operation::new(Some(&n("wc")), "arith.divf", &[&n("expc"), "%gs"]));
        // diagonal scores
        ops.push(Operation::new(Some(&n("kdt")), "linalg.transpose", &[&n("kd")]));
        ops.push(Operation::new(Some(&n("rawd")), "linalg.matmul", &[&n("q"), &n("kdt")]));
        ops.push(Operation::new(Some(&n("spld")), "tensor.splat", &["%sd"]));
        ops.push(Operation::new(Some(&n("sdd")), "arith.mulf", &[&n("rawd"), &n("spld")]));
        ops.push(Operation::new(Some(&n("subd")), "arith.subf", &[&n("sdd"), "%g"]));
        ops.push(Operation::new(Some(&n("expd")), "math.exp", &[&n("subd")]));
        ops.push(Operation::new(Some(&n("wd")), "arith.divf", &[&n("expd"), "%gs"]));
        // AV and store
        ops.push(Operation::new(Some(&n("ovc")), "linalg.matmul", &[&n("wc"), &n("vc")]));
        ops.push(Operation::new(Some(&n("ovd")), "linalg.matmul", &[&n("wd"), &n("vd")]));
        ops.push(Operation::new(Some(&n("oa")), "arith.addf", &[&n("ovc"), &n("ovd")]));
        ops.push(tile_op(&n("to"), "%v1", &row, vec![1, d]));
        ops.push(Operation::new(None, "ktdp.store", &[&n("oa"), &n("to")]));
    }
    ops.push(Operation::new(None, "func.return", &[]));
    IRFunction {
        name: "attn".into(),
        arguments: vec![
            ("%q".into(), "index".into()),
            ("%o".into(), "index".into()),
            ("%mask".into(), "index".into()),
            ("%kc".into(), "index".into()),
            ("%kd".into(), "index".into()),
            ("%vc".into(), "index".into()),
            ("%vd".into(), "index".into()),
            ("%extra".into(), "index".into()),
        ],
        operations: ops,
        grid: (2, 1, 1),
        return_type: None,
    }
}

#[test]
fn recognizes_unrolled_two_block_attention() {
    let f = unrolled_attention("1.25e-1");
    let isl = recognize_head_attention(&f, &HostF32).expect("recognized");
    assert_eq!((isl.m, isl.d, isl.cap, isl.q_cols, isl.kv_cols), (2, 4, 3, 8, 4));
    assert_eq!((isl.h, isl.gqac, isl.hdc), (2, 3, 4));
    assert_eq!(isl.q_arg, "%q");
    assert_eq!(isl.vd_arg, "%vd");
    assert_eq!(isl.scale, "0.125");
    assert_eq!(isl.scale_bits, 0.125f32.to_bits());
    assert_eq!(isl.ninf_bits, (-1.0e38f32).to_bits());
}

#[test]
fn rejects_scales_that_differ_beyond_tolerance() {
    assert!(recognize_head_attention(&unrolled_attention("0.126"), &HostF32).is_none());
}

#[test]
fn apply_rewrites_only_when_the_scores_tile_fits() {
    let mut module = IRModule::new();
    module.add_function(unrolled_attention("0.125"));
    let before = module.functions[0].operations.len();
    assert_eq!(apply_head_rewrite(&mut module, |_bytes: usize| true, &HostF32), 0);
    assert_eq!(module.functions[0].operations.len(), before);
    let n = apply_head_rewrite(&mut module, |bytes: usize| bytes > 2 * 3 * 2, &HostF32);
    assert_eq!(n, 1);
    let f = &module.functions[0];
    assert_eq!(f.name, "attn");
    assert_eq!(f.arguments.len(), 8, "original argument list kept");
    assert_eq!(f.grid, (2, 1, 1));
    assert_eq!(count(f, "ktdp.store"), 1);
    assert_eq!(count(f, "linalg.matmul"), 4);
}

#[test]
fn rewrite_wires_weights_to_values_and_stores_their_sum() {
    let isl = smollm_island();
    let f = rewrite_head_attention(&isl);
    let ops = &f.operations;
    assert_eq!(ops.len(), 82);
    let res = |k: usize| ops[k].result.clone().unwrap();
    // context weights times context values, diagonal weights times diagonal values
    assert_eq!(ops[75].op_type, "linalg.matmul");
    assert_eq!(ops[75].operands, vec![res(65), res(71), res(74)]);
    assert_eq!(ops[77].operands, vec![res(69), res(73), res(76)]);
    assert_eq!(ops[78].operands, vec![res(75), res(77)]);
    assert_eq!(ops[80].op_type, "ktdp.store");
    assert_eq!(ops[80].operands, vec![res(78), res(79)]);
    // the scores: Q against the transposed K blocks
    assert_eq!(ops[26].operands, vec![res(18), res(24), res(25)]);
    assert_eq!(ops[39].operands, vec![res(18), res(37), res(38)]);
    // the views read the island's pointer arguments
    assert_eq!(ops[10].operands, vec![isl.q_arg.clone()]);
    assert_eq!(ops[16].operands, vec![isl.vd_arg.clone()]);
}

#[test]
fn a_copy_kernel_is_not_attention() {
    let f = IRFunction {
        name: "copy".into(),
        arguments: vec![("%x".into(), "index".into()), ("%y".into(), "index".into())],
        operations: vec![
            Operation::new(Some("%pid"), "ktdp.get_compute_tile_id", &[]),
            Operation::new(Some("%v"), "ktdp.construct_memory_view", &["%x"]),
            Operation::new(Some("%t"), "ktdp.construct_access_tile", &["%v", "%pid"]),
            Operation::new(Some("%l"), "ktdp.load", &["%t"]),
            Operation::new(Some("%e"), "math.exp", &["%l"]),
            Operation::new(Some("%w"), "ktdp.construct_memory_view", &["%y"]),
            Operation::new(Some("%u"), "ktdp.construct_access_tile", &["%w", "%pid"]),
            Operation::new(None, "ktdp.store", &["%e", "%u"]),
        ],
        grid: (9, 1, 1),
        return_type: None,
    };
    assert!(recognize_head_attention(&f, &HostF32).is_none());
}
