use lib::fusion::{fuse_program, Binding, NodeSpec, ProgramSpec};
use lib::ir::{Attr, IRFunction, IRModule, Operation};
use std::collections::HashSet;

/// A node function: load the whole tensor from `in_arg`, apply `math.exp`,
/// store the whole result to `out_arg`. `whole` toggles whether the access
/// tile covers the memory view (false forces the HBM fallback).
fn copy_node(name: &str, in_arg: &str, out_arg: &str, shape: i64, whole: bool) -> IRFunction {
    let tile_shape = if whole { shape } else { shape / 2 };
    let mk_view = |res: &str, arg: &str| {
        Operation::new(Some(res), "ktdp.construct_memory_view", &[arg])
            .with_attr("shape", Attr::IntList(vec![shape]))
            .with_attr("strides", Attr::IntList(vec![1]))
            .with_attr("memory_space", Attr::Str("HBM".into()))
            .with_attr("dtype", Attr::Str("f16".into()))
    };
    let mk_tile = |res: &str, view: &str| {
        Operation::new(Some(res), "ktdp.construct_access_tile", &[view])
            .with_attr("shape", Attr::IntList(vec![tile_shape]))
    };
    IRFunction {
        name: name.to_string(),
        arguments: vec![(in_arg.to_string(), "index".into()), (out_arg.to_string(), "index".into())],
        grid: (1, 1, 1),
        return_type: None,
        operations: vec![
            mk_view("%vin", in_arg),
            mk_tile("%tin", "%vin"),
            Operation::new(Some("%loaded"), "ktdp.load", &["%tin"]),
            Operation::new(Some("%y"), "math.exp", &["%loaded"]),
            mk_view("%vout", out_arg),
            mk_tile("%tout", "%vout"),
            Operation::new(None, "ktdp.store", &["%y", "%tout"]),
            Operation::new(None, "func.return", &[]),
        ],
    }
}

fn module(funcs: Vec<IRFunction>) -> IRModule {
    let mut m = IRModule::default();
    for f in funcs {
        m.add_function(f);
    }
    m
}

fn binding(arg: &str, tensor: u64, is_output: bool) -> Binding {
    Binding { arg: arg.into(), tensor, is_output }
}

/// a: src(1) -> t(2);  b: t(2) -> result(3).  t is a whole-tensor edge.
fn two_node_spec() -> ProgramSpec {
    ProgramSpec {
        nodes: vec![
            NodeSpec { func: "a".into(), bindings: vec![binding("%in", 1, false), binding("%out", 2, true)] },
            NodeSpec { func: "b".into(), bindings: vec![binding("%in", 2, false), binding("%out", 3, true)] },
        ],
        sources: HashSet::from([1]),
        results: HashSet::from([3]),
    }
}

fn count(f: &IRFunction, op_type: &str) -> usize {
    f.operations.iter().filter(|o| o.op_type == op_type).count()
}

fn arg_names(f: &IRFunction) -> Vec<&str> {
    f.arguments.iter().map(|(n, _)| n.as_str()).collect()
}

#[test]
fn whole_tensor_edge_is_forwarded_no_hbm() {
    let m = module(vec![copy_node("a", "%in", "%out", 16, true), copy_node("b", "%in", "%out", 16, true)]);
    let fused = fuse_program(&m, &two_node_spec()).unwrap();

    // The intermediate t2's store AND load are gone: no HBM round-trip.
    assert_eq!(count(&fused, "ktdp.load"), 1, "only the source load survives");
    assert_eq!(count(&fused, "ktdp.store"), 1, "only the result store survives");

    // The fused function only needs the source (t1) + result (t3) pointers.
    assert_eq!(arg_names(&fused), vec!["%t1_ptr", "%t3_ptr"], "no pointer for intermediate t2");

    // b's exp consumes a's exp result directly (SSA forwarded).
    let b_exp = fused
        .operations
        .iter()
        .find(|o| o.op_type == "math.exp" && o.result.as_deref() == Some("%n1_y"))
        .expect("b's exp present");
    assert_eq!(b_exp.operands, vec!["%n0_y"], "b's exp reads a's stored SSA value");
}

#[test]
fn tiled_edge_falls_back_to_hbm() {
    // b loads t2 as a sub-tile (not whole) -> cannot forward; keep HBM.
    let m = module(vec![copy_node("a", "%in", "%out", 16, true), copy_node("b", "%in", "%out", 16, false)]);
    let fused = fuse_program(&m, &two_node_spec()).unwrap();
    // a still stores t2, b still loads it (resident HBM within the fused fn).
    assert_eq!(count(&fused, "ktdp.load"), 2, "source + tiled intermediate load both kept");
    assert_eq!(count(&fused, "ktdp.store"), 2, "intermediate + result stores both kept");
    // The intermediate pointer is still a fused-function arg.
    let names = arg_names(&fused);
    assert!(names.contains(&"%t2_ptr"), "intermediate kept as HBM arg: {names:?}");
}

#[test]
fn ssa_renaming_avoids_collisions() {
    // Both nodes use identical internal SSA names (%loaded, %y); after fusion
    // they must be distinct (prefixed).
    let m = module(vec![copy_node("a", "%in", "%out", 16, true), copy_node("b", "%in", "%out", 16, true)]);
    let fused = fuse_program(&m, &two_node_spec()).unwrap();
    let exps: Vec<&str> = fused
        .operations
        .iter()
        .filter(|o| o.op_type == "math.exp")
        .filter_map(|o| o.result.as_deref())
        .collect();
    assert_eq!(exps, vec!["%n0_y", "%n1_y"], "node-prefixed, no collision");
}

#[test]
fn fused_args_put_sources_first_and_results_last() {
    // Tiled edge keeps t2 as an argument: order is source t1, intermediate t2, result t3.
    let m = module(vec![copy_node("a", "%in", "%out", 16, true), copy_node("b", "%in", "%out", 16, false)]);
    let fused = fuse_program(&m, &two_node_spec()).unwrap();
    assert_eq!(arg_names(&fused), vec!["%t1_ptr", "%t2_ptr", "%t3_ptr"]);
    assert!(fused.arguments.iter().all(|(_, t)| t == "index"));
    assert_eq!(fused.name, "fused");
    assert_eq!(fused.operations.last().unwrap().op_type, "func.return");
}

#[test]
fn missing_node_function_is_an_error() {
    let m = module(vec![copy_node("a", "%in", "%out", 16, true)]);
    let err = fuse_program(&m, &two_node_spec()).unwrap_err();
    assert_eq!(err, "no function named b");
}

#[test]
fn fused_body_renames_pointer_args_and_keeps_grid() {
    let mut a = copy_node("a", "%in", "%out", 16, true);
    a.grid = (4, 1, 1);
    let m = module(vec![a, copy_node("b", "%in", "%out", 16, true)]);
    let fused = fuse_program(&m, &two_node_spec()).unwrap();
    assert_eq!(fused.grid, (4, 1, 1));
    // a's input view now reads the canonical source pointer.
    let first = &fused.operations[0];
    assert_eq!(first.op_type, "ktdp.construct_memory_view");
    assert_eq!(first.result.as_deref(), Some("%n0_vin"));
    assert_eq!(first.operands, vec!["%t1_ptr"]);
    // The unforwarded result store targets t3 through b's renamed tile.
    let store = fused.operations.iter().find(|o| o.op_type == "ktdp.store").unwrap();
    assert_eq!(store.operands, vec!["%n1_y", "%n1_tout"]);
}

#[test]
fn empty_program_fuses_to_a_bare_return() {
    let m = module(vec![]);
    let spec = ProgramSpec { nodes: vec![], sources: HashSet::new(), results: HashSet::new() };
    let fused = fuse_program(&m, &spec).unwrap();
    assert_eq!(fused.operations.len(), 1);
    assert!(fused.arguments.is_empty());
    assert_eq!(fused.grid, (1, 1, 1));
}
