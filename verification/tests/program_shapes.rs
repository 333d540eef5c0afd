use lib::fusion::{Binding, NodeSpec, ProgramSpec};
use lib::ir::{Attr, IRFunction, IRModule, Operation};
use lib::program_shapes::{collect_view_shapes, derive_shapes, tensor_id_of_arg, tensor_id_of_key, view_shape_of};
use std::collections::{HashMap, HashSet};

fn view(res: &str, ptr: &str, shape: Vec<i64>) -> Operation {
    Operation::new(Some(res), "ktdp.construct_memory_view", &[ptr]).with_attr("shape", Attr::IntList(shape))
}

fn binding(arg: &str, tensor: u64) -> Binding {
    Binding { arg: arg.into(), tensor, is_output: false }
}

fn func(name: &str, ops: Vec<Operation>) -> IRFunction {
    IRFunction { name: name.into(), arguments: vec![], grid: (1, 1, 1), return_type: None, operations: ops }
}

#[test]
fn arg_names_lose_every_sigil_prefix_and_ptr_suffix() {
    assert_eq!(tensor_id_of_arg("%t335_ptr"), Ok(335));
    assert_eq!(tensor_id_of_arg("t12"), Ok(12));
    assert_eq!(tensor_id_of_arg("42"), Ok(42));
    assert_eq!(tensor_id_of_arg("%%tt7_ptr_ptr"), Ok(7));
    assert_eq!(tensor_id_of_arg("+9"), Ok(9));
    assert_eq!(tensor_id_of_arg("%tx_ptr"), Err("unexpected fused pointer-arg name \"%tx_ptr\"".to_string()));
    assert_eq!(tensor_id_of_arg("%t_ptr"), Err("unexpected fused pointer-arg name \"%t_ptr\"".to_string()));
    assert_eq!(
        tensor_id_of_arg("t18446744073709551616"),
        Err("unexpected fused pointer-arg name \"t18446744073709551616\"".to_string())
    );
    assert_eq!(tensor_id_of_arg("t18446744073709551615"), Ok(u64::MAX));
}

#[test]
fn keys_lose_at_most_one_t_and_one_ptr() {
    assert_eq!(tensor_id_of_key("t5"), Ok(5));
    assert_eq!(tensor_id_of_key("%t5"), Ok(5));
    assert_eq!(tensor_id_of_key("%t5_ptr"), Ok(5));
    assert_eq!(tensor_id_of_key("5"), Ok(5));
    assert_eq!(tensor_id_of_key("tt5"), Err("cannot parse tensor id from arg/output key \"tt5\"".to_string()));
    assert_eq!(
        tensor_id_of_key("t5_ptr_ptr"),
        Err("cannot parse tensor id from arg/output key \"t5_ptr_ptr\"".to_string())
    );
    assert_eq!(tensor_id_of_key("-3"), Err("cannot parse tensor id from arg/output key \"-3\"".to_string()));
}

#[test]
fn view_shape_needs_a_nonempty_integer_list() {
    assert_eq!(view_shape_of(&view("%v", "%a", vec![2, 3])), Some(vec![2, 3]));
    assert_eq!(view_shape_of(&view("%v", "%a", vec![])), None);
    assert_eq!(view_shape_of(&Operation::new(Some("%v"), "ktdp.construct_memory_view", &["%a"])), None);
}

#[test]
fn first_view_of_a_tensor_wins_and_regions_are_walked() {
    let mut loop_op = Operation::new(None, "scf.for", &[]);
    loop_op.regions = vec![vec![view("%w", "%b_ptr", vec![8])]];
    let ops = vec![
        view("%v0", "%a_ptr", vec![4, 4]),
        view("%v1", "%a_ptr", vec![16]),
        Operation::new(Some("%x"), "ktdp.load", &["%a_ptr"]),
        view("%v2", "%unbound", vec![3]),
        loop_op,
    ];
    let bs = vec![binding("%a_ptr", 1), binding("%b_ptr", 2)];
    let mut shapes: HashMap<u64, Vec<usize>> = HashMap::new();
    collect_view_shapes(&ops, &bs, &mut shapes);
    assert_eq!(shapes.len(), 2);
    assert_eq!(shapes[&1], vec![4, 4]);
    assert_eq!(shapes[&2], vec![8]);
}

#[test]
fn derive_shapes_reads_every_node_and_names_a_missing_function() {
    let mut module = IRModule::default();
    module.add_function(func("f", vec![view("%v", "%in", vec![2, 5])]));
    module.add_function(func("g", vec![view("%v", "%in", vec![7]), view("%u", "%out", vec![9])]));
    let spec = ProgramSpec {
        nodes: vec![
            NodeSpec { func: "f".into(), bindings: vec![binding("%in", 1)] },
            NodeSpec { func: "g".into(), bindings: vec![binding("%in", 1), binding("%out", 2)] },
        ],
        sources: HashSet::from([1]),
        results: HashSet::from([2]),
    };
    let shapes = derive_shapes(&module, &spec).unwrap();
    assert_eq!(shapes.len(), 2);
    assert_eq!(shapes[&1], vec![2, 5]);
    assert_eq!(shapes[&2], vec![9]);

    let bad = ProgramSpec {
        nodes: vec![NodeSpec { func: "h".into(), bindings: vec![] }],
        sources: HashSet::new(),
        results: HashSet::new(),
    };
    assert_eq!(derive_shapes(&module, &bad).err(), Some("no function named h".to_string()));
}

#[test]
fn error_messages_quote_the_key_as_debug_does() {
    for key in ["a\tb", "x\ny\r", "nul\0", "\u{1}\u{1f}\u{7f}", "q\"b\\", "é"] {
        assert_eq!(tensor_id_of_key(key), Err(format!("cannot parse tensor id from arg/output key {key:?}")));
    }
}
