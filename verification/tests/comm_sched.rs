use lib::comm_sched::{compute_dies_at, deadlock_report, execute_with_communication, is_comm_op, make_comm_op, read_core_group, tile_add, CoreRunner, Poll};
use lib::context::CoreContext;
use lib::dialects::Dispatch;
use lib::dtypes::DType;
use lib::env::{ExecutionEnv, FloatArith, GridExecutor};
use lib::ir::{Attr, Operation, Tile, Value};
use lib::memory::SpyreMemoryHierarchy;
use std::collections::{HashMap, VecDeque};

struct HostF32;

impl FloatArith for HostF32 {
    fn addf(&self, a: u32, b: u32) -> u32 {
        (f32::from_bits(a) + f32::from_bits(b)).to_bits()
    }
    fn mulf(&self, a: u32, b: u32) -> u32 {
        (f32::from_bits(a) * f32::from_bits(b)).to_bits()
    }
    fn subf(&self, a: u32, b: u32) -> u32 {
        (f32::from_bits(a) - f32::from_bits(b)).to_bits()
    }
    fn ltf(&self, a: u32, b: u32) -> bool {
        f32::from_bits(a) < f32::from_bits(b)
    }
    fn int_to_f32(&self, x: i64) -> u32 {
        (x as f32).to_bits()
    }
    fn parse_f32(&self, lit: &str) -> Option<u32> {
        lit.parse::<f64>().ok().map(|x| (x as f32).to_bits())
    }
    fn round_to_dtype(&self, x: u32, _dtype: DType) -> u32 {
        x
    }
    fn widen_f16(&self, h: u16) -> u32 {
        let sign = ((h & 0x8000) as u32) << 16;
        let exp = ((h >> 10) & 0x1f) as u32;
        let mant = (h & 0x03ff) as u32;
        if exp == 0 && mant == 0 {
            sign
        } else if exp == 0 {
            (if sign != 0 { -1.0f32 } else { 1.0 } * mant as f32 * 2.0f32.powi(-24)).to_bits()
        } else if exp == 0x1f {
            sign | 0x7f80_0000 | (mant << 13)
        } else {
            sign | ((exp + 127 - 15) << 23) | (mant << 13)
        }
    }
    fn round_to_i64(&self, x: u32) -> i64 {
        f32::from_bits(x).round() as i64
    }
}

fn tile_f32(data: &[f32], shape: Vec<usize>) -> Tile {
    Tile {
        data: data.iter().map(|x| x.to_bits()).collect(),
        dtype: DType::F32,
        shape,
        unique_sticks: None,
        index_unique_sticks: None,
    }
}

fn floats(t: &Tile) -> Vec<f32> {
    t.data.iter().map(|b| f32::from_bits(*b)).collect()
}

/// Run a scheduler over per-core seed bindings, returning each core's final
/// value for `result_name` (the contexts are kept so results stay readable).
fn run_capturing(
    grid: &GridExecutor,
    ops: &Vec<Operation>,
    seeds: &[Vec<(String, Value)>],
    result_name: &str,
) -> Vec<Option<Value>> {
    let dispatch = Dispatch::new();
    let env = ExecutionEnv::new(&dispatch, grid, &HostF32);
    let n = grid.num_cores;
    let dies_at: Vec<Vec<String>> = Vec::new();
    let mut runners: Vec<CoreRunner> = (0..n)
        .map(|core_id| {
            let mut ctx = CoreContext::new(core_id, grid.linear_to_grid(core_id), SpyreMemoryHierarchy::new(n));
            for (name, val) in &seeds[core_id] {
                ctx.set_value(name, val.clone());
            }
            CoreRunner { ctx, op_idx: 0, active: None }
        })
        .collect();

    let mut messages: HashMap<(usize, usize), VecDeque<Tile>> = HashMap::new();
    let mut waiting: HashMap<usize, usize> = HashMap::new();
    let mut done = vec![false; n];

    let mut advance_one = |runners: &mut Vec<CoreRunner>,
                           messages: &mut HashMap<(usize, usize), VecDeque<Tile>>,
                           waiting: &mut HashMap<usize, usize>,
                           done: &mut [bool],
                           core_id: usize,
                           incoming: Option<Tile>|
     -> Result<(), String> {
        let mut outbox = Vec::new();
        let poll = runners[core_id].step(ops, &env, incoming, &dies_at, &mut outbox)?;
        for (dst, tile) in outbox {
            messages.entry((core_id, dst)).or_default().push_back(tile);
        }
        match poll {
            Poll::Block(src) => {
                waiting.insert(core_id, src);
            }
            Poll::Done => {
                done[core_id] = true;
            }
        }
        Ok(())
    };

    for core_id in 0..n {
        advance_one(&mut runners, &mut messages, &mut waiting, &mut done, core_id, None).unwrap();
    }
    let mut guard = 0;
    while done.iter().any(|d| !d) {
        let mut progressed = false;
        for core_id in 0..n {
            if done[core_id] {
                continue;
            }
            let src = match waiting.get(&core_id) {
                Some(&s) => s,
                None => continue,
            };
            let tile = match messages.get_mut(&(src, core_id)).and_then(|q| q.pop_front()) {
                Some(t) => t,
                None => continue,
            };
            if messages.get(&(src, core_id)).is_some_and(|q| q.is_empty()) {
                messages.remove(&(src, core_id));
            }
            waiting.remove(&core_id);
            advance_one(&mut runners, &mut messages, &mut waiting, &mut done, core_id, Some(tile)).unwrap();
            progressed = true;
        }
        assert!(progressed, "deadlock: {waiting:?}");
        guard += 1;
        assert!(guard < 1000, "runaway scheduler");
    }

    runners.iter().map(|r| r.ctx.get_value(result_name).ok().cloned()).collect()
}

#[test]
fn comm_sched_ring_reduce_4_cores_sums_to_all() {
    // Worked example: starting 1,2,3,4 -> every core 10.
    let grid = GridExecutor::new((4, 1, 1));
    let group = Value::Tuple((0..4i64).map(Value::Index).collect());
    let seeds: Vec<Vec<(String, Value)>> = (0..4)
        .map(|c| {
            vec![
                ("t".into(), Value::Tile(tile_f32(&[(c + 1) as f32], vec![1]))),
                ("g".into(), group.clone()),
            ]
        })
        .collect();
    let ops = vec![Operation::new(Some("%r"), "ktdp.reduce", &["%t", "%g"])];
    let results = run_capturing(&grid, &ops, &seeds, "%r");
    for (c, r) in results.iter().enumerate() {
        match r {
            Some(Value::Tile(t)) => assert_eq!(floats(t), vec![10.0], "core {c}"),
            other => panic!("core {c}: expected Tile([10]), got {other:?}"),
        }
    }
}

#[test]
fn comm_sched_ring_reduce_3_cores_vectors() {
    // 3 cores, 2-element tiles: [1,10],[2,20],[3,30] -> all [6,60].
    let grid = GridExecutor::new((3, 1, 1));
    let group = Value::Tuple((0..3i64).map(Value::Index).collect());
    let starts = [[1.0, 10.0], [2.0, 20.0], [3.0, 30.0]];
    let seeds: Vec<Vec<(String, Value)>> = (0..3)
        .map(|c| {
            vec![
                ("t".into(), Value::Tile(tile_f32(&starts[c], vec![2]))),
                ("g".into(), group.clone()),
            ]
        })
        .collect();
    let ops = vec![Operation::new(Some("%r"), "ktdp.reduce", &["%t", "%g"])];
    let results = run_capturing(&grid, &ops, &seeds, "%r");
    for (c, r) in results.iter().enumerate() {
        match r {
            Some(Value::Tile(t)) => assert_eq!(floats(t), vec![6.0, 60.0], "core {c}"),
            other => panic!("core {c}: {other:?}"),
        }
    }
}

#[test]
fn comm_sched_no_comm_ops_runs_each_core_to_completion() {
    let grid = GridExecutor::new((3, 1, 1));
    let mut mem = SpyreMemoryHierarchy::new(3);
    let dispatch = Dispatch::new();
    let ops = vec![
        Operation::new(Some("%a"), "arith.constant", &[]).with_attr("value", Attr::Int(7)),
        Operation::new(Some("%b"), "arith.addi", &["%a", "%a"]),
    ];
    execute_with_communication(&grid, &mut mem, &ops, &[], &dispatch, &HostF32).unwrap();
}

#[test]
fn comm_sched_core_outside_group_is_identity() {
    // 2-core grid, group = {0} only; core 1 isn't in the group -> identity,
    // core 0 is a singleton group -> identity. Neither blocks.
    let grid = GridExecutor::new((2, 1, 1));
    let group = Value::Tuple(vec![Value::Index(0)]);
    let seeds: Vec<Vec<(String, Value)>> = (0..2)
        .map(|c| {
            vec![
                ("t".into(), Value::Tile(tile_f32(&[(c + 1) as f32], vec![1]))),
                ("g".into(), group.clone()),
            ]
        })
        .collect();
    let ops = vec![Operation::new(Some("%r"), "ktdp.reduce", &["%t", "%g"])];
    let results = run_capturing(&grid, &ops, &seeds, "%r");
    match &results[0] {
        Some(Value::Tile(t)) => assert_eq!(floats(t), vec![1.0]),
        o => panic!("{o:?}"),
    }
    match &results[1] {
        Some(Value::Tile(t)) => assert_eq!(floats(t), vec![2.0]),
        o => panic!("{o:?}"),
    }
}

#[test]
fn scheduler_runs_a_ring_reduce_to_completion() {
    let grid = GridExecutor::new((4, 1, 1));
    let mut mem = SpyreMemoryHierarchy::new(4);
    let dispatch = Dispatch::new();
    let group = Value::Tuple((0..4i64).map(Value::Index).collect());
    let inputs = vec![("t".to_string(), Value::Tile(tile_f32(&[1.0, 2.0], vec![2]))), ("g".to_string(), group)];
    let ops = vec![Operation::new(Some("%r"), "ktdp.reduce", &["%t", "%g"])];
    execute_with_communication(&grid, &mut mem, &ops, &inputs, &dispatch, &HostF32).unwrap();
    // each core tracked its 8-byte result tile in its own LX
    for c in 0..4 {
        assert_eq!(mem.get_lx(c).used, 8);
    }
}

#[test]
fn waiting_on_a_core_outside_the_grid_deadlocks() {
    // core 0's ring predecessor is core 5, which never runs
    let grid = GridExecutor::new((1, 1, 1));
    let mut mem = SpyreMemoryHierarchy::new(1);
    let dispatch = Dispatch::new();
    let group = Value::Tuple(vec![Value::Index(0), Value::Index(5)]);
    let inputs = vec![("t".to_string(), Value::Tile(tile_f32(&[1.0], vec![1]))), ("g".to_string(), group)];
    let ops = vec![Operation::new(Some("%r"), "ktdp.reduce", &["%t", "%g"])];
    let err = execute_with_communication(&grid, &mut mem, &ops, &inputs, &dispatch, &HostF32).unwrap_err();
    assert_eq!(err, "Deadlock detected: core 0 waiting on recv from core 5");
}

#[test]
fn comm_op_names_and_groups() {
    assert!(is_comm_op("ktdp.reduce"));
    assert!(!is_comm_op("arith.addf"));
    let g = read_core_group(&Value::Tuple(vec![Value::Index(2), Value::Index(0)])).unwrap();
    assert_eq!(g, vec![2, 0]);
    assert!(read_core_group(&Value::Index(1)).is_err());
}

#[test]
fn dies_at_tracks_last_use_including_attributes_and_regions() {
    let mut for_op = Operation::new(Some("%f"), "scf.for", &["%lb"]);
    for_op.regions = vec![vec![Operation::new(Some("%in"), "arith.addi", &["%d", "%d"])]];
    let ops = vec![
        Operation::new(Some("%a"), "arith.constant", &[]),
        Operation::new(Some("%b"), "arith.addi", &["%a", "%a"]),
        Operation::new(Some("%c"), "foo.bar", &["%b"]).with_attr("ref", Attr::Str("%a".into())),
        Operation::new(Some("%d"), "arith.constant", &[]),
        for_op,
    ];
    let mut d = compute_dies_at(&ops);
    for bucket in d.iter_mut() {
        bucket.sort();
    }
    assert_eq!(d.len(), 5);
    assert!(d[0].is_empty());
    assert!(d[1].is_empty());
    assert_eq!(d[2], vec!["%a".to_string(), "%b".to_string(), "%c".to_string()]);
    assert!(d[3].is_empty());
    // %d is read inside the loop body; the loop result and its bound are used nowhere else.
    assert_eq!(d[4], vec!["%d".to_string(), "%f".to_string(), "%lb".to_string()]);
}

#[test]
fn make_comm_op_names_the_unknown_op() {
    let ctx = CoreContext::new(0, (0, 0, 0), SpyreMemoryHierarchy::new(1));
    let op = Operation::new(Some("%r"), "arith.addf", &["%a", "%b"]);
    match make_comm_op(&op, &ctx) {
        Err(e) => assert_eq!(e, "not a comm op: arith.addf"),
        Ok(_) => panic!("arith.addf is not a communication op"),
    }
}

#[test]
fn resumed_runner_binds_the_sum_and_finishes() {
    let grid = GridExecutor::new((2, 1, 1));
    let dispatch = Dispatch::new();
    let env = ExecutionEnv::new(&dispatch, &grid, &HostF32);
    let mut ctx = CoreContext::new(0, (0, 0, 0), SpyreMemoryHierarchy::new(2));
    ctx.set_value("%t", Value::Tile(tile_f32(&[1.0], vec![1])));
    ctx.set_value("%g", Value::Tuple(vec![Value::Index(0), Value::Index(1)]));
    let mut runner = CoreRunner { ctx, op_idx: 0, active: None };
    let ops = vec![Operation::new(Some("%r"), "ktdp.reduce", &["%t", "%g"])];
    let dies_at: Vec<Vec<String>> = Vec::new();
    let mut outbox = Vec::new();
    assert!(matches!(runner.step(&ops, &env, None, &dies_at, &mut outbox), Ok(Poll::Block(1))));
    assert_eq!(outbox.len(), 1);
    assert_eq!(outbox[0].0, 1);
    let mut outbox = Vec::new();
    let poll = runner.step(&ops, &env, Some(tile_f32(&[5.0], vec![1])), &dies_at, &mut outbox);
    assert!(matches!(poll, Ok(Poll::Done)));
    assert!(runner.active.is_none());
    assert_eq!(runner.op_idx, 1);
    match runner.ctx.get_value("%r").unwrap() {
        Value::Tile(t) => assert_eq!(floats(t), vec![6.0]),
        other => panic!("{other:?}"),
    }
}

#[test]
fn deadlock_report_lists_every_parked_core() {
    assert_eq!(deadlock_report(&vec![(0, 1)]), "Deadlock detected: core 0 waiting on recv from core 1");
    assert_eq!(
        deadlock_report(&vec![(0, 1), (12, 3)]),
        "Deadlock detected: core 0 waiting on recv from core 1; core 12 waiting on recv from core 3"
    );
    assert_eq!(deadlock_report(&vec![]), "Deadlock detected: ");
}

#[test]
fn tile_add_sums_element_by_element() {
    let a = tile_f32(&[1.0, 2.0, 3.5], vec![3]);
    let b = tile_f32(&[10.0, 20.0, 0.5], vec![3]);
    let s = tile_add(&a, &b, &HostF32).unwrap();
    assert_eq!(floats(&s), vec![11.0, 22.0, 4.0]);
    assert_eq!(s.shape, vec![3]);
    let c = tile_f32(&[1.0, 2.0, 3.0], vec![1, 3]);
    assert_eq!(tile_add(&a, &c, &HostF32).unwrap_err(), "ktdp.reduce: tile shape mismatch");
}

#[test]
fn an_empty_grid_still_runs_one_core() {
    let grid = GridExecutor::new((1, 1, 0));
    assert_eq!(grid.num_cores, 0);
    let mut mem = SpyreMemoryHierarchy::new(1);
    let dispatch = Dispatch::new();
    let ops = vec![
        Operation::new(Some("%a"), "arith.constant", &[]).with_attr("value", Attr::Int(7)),
        Operation::new(Some("%b"), "arith.addi", &["%a", "%a"]),
    ];
    execute_with_communication(&grid, &mut mem, &ops, &[], &dispatch, &HostF32).unwrap();
    let bad = vec![Operation::new(Some("%z"), "ktdp.not_yet", &[])];
    assert_eq!(
        execute_with_communication(&grid, &mut mem, &bad, &[], &dispatch, &HostF32).unwrap_err(),
        "no handler registered for op 'ktdp.not_yet'"
    );
}

#[test]
fn an_integer_program_over_index_inputs_fails_on_every_core_alike() {
    let grid = GridExecutor::new((2, 1, 1));
    let mut mem = SpyreMemoryHierarchy::new(2);
    let dispatch = Dispatch::new();
    let ops = vec![
        Operation::new(Some("%b"), "arith.addi", &["%x", "%y"]),
        Operation::new(Some("%c"), "arith.addi", &["%b", "%b"]),
    ];
    let fine = vec![("%x".to_string(), Value::Index(2)), ("%y".to_string(), Value::Index(3))];
    execute_with_communication(&grid, &mut mem, &ops, &fine, &dispatch, &HostF32).unwrap();
    let huge = vec![("%x".to_string(), Value::Index(i64::MAX)), ("%y".to_string(), Value::Index(0))];
    assert!(execute_with_communication(&grid, &mut mem, &ops, &huge, &dispatch, &HostF32).is_err());
}

#[test]
fn a_fresh_reduce_parks_on_its_ring_predecessor() {
    let grid = GridExecutor::new((3, 1, 1));
    let dispatch = Dispatch::new();
    let env = ExecutionEnv::new(&dispatch, &grid, &HostF32);
    let mut ctx = CoreContext::new(1, (1, 0, 0), SpyreMemoryHierarchy::new(3));
    ctx.set_value("%t", Value::Tile(tile_f32(&[2.0, 4.0], vec![2])));
    ctx.set_value("%g", Value::Tuple(vec![Value::Index(0), Value::Index(1), Value::Index(2)]));
    let mut runner = CoreRunner { ctx, op_idx: 0, active: None };
    let ops = vec![Operation::new(Some("%r"), "ktdp.reduce", &["%t", "%g"])];
    let dies_at: Vec<Vec<String>> = Vec::new();
    let mut outbox = Vec::new();
    assert!(matches!(runner.step(&ops, &env, None, &dies_at, &mut outbox), Ok(Poll::Block(0))));
    assert_eq!(runner.op_idx, 1);
    assert_eq!(outbox.len(), 1);
    assert_eq!(outbox[0].0, 2);
    assert_eq!(floats(&outbox[0].1), vec![2.0, 4.0]);
    assert!(runner.active.is_some());
}

#[test]
fn a_reduce_without_a_core_group_is_an_error() {
    let grid = GridExecutor::new((2, 1, 1));
    let dispatch = Dispatch::new();
    let env = ExecutionEnv::new(&dispatch, &grid, &HostF32);
    let mut ctx = CoreContext::new(0, (0, 0, 0), SpyreMemoryHierarchy::new(2));
    ctx.set_value("%t", Value::Tile(tile_f32(&[1.0], vec![1])));
    ctx.set_value("%g", Value::Index(3));
    let mut runner = CoreRunner { ctx, op_idx: 0, active: None };
    let ops = vec![Operation::new(Some("%r"), "ktdp.reduce", &["%t", "%g"])];
    let dies_at: Vec<Vec<String>> = Vec::new();
    let mut outbox = Vec::new();
    assert!(runner.step(&ops, &env, None, &dies_at, &mut outbox).is_err());
    assert!(outbox.is_empty());
}

#[test]
fn a_runner_drops_names_whose_life_ended() {
    let grid = GridExecutor::new((1, 1, 1));
    let dispatch = Dispatch::new();
    let env = ExecutionEnv::new(&dispatch, &grid, &HostF32);
    let ctx = CoreContext::new(0, (0, 0, 0), SpyreMemoryHierarchy::new(1));
    let mut runner = CoreRunner { ctx, op_idx: 0, active: None };
    let ops = vec![
        Operation::new(Some("%a"), "arith.constant", &[]).with_attr("value", Attr::Int(5)),
        Operation::new(Some("%b"), "arith.addi", &["%a", "%a"]),
    ];
    let dies_at = compute_dies_at(&ops);
    let mut outbox = Vec::new();
    assert!(matches!(runner.step(&ops, &env, None, &dies_at, &mut outbox), Ok(Poll::Done)));
    assert!(runner.ctx.get_value("%a").is_err());
    assert!(runner.ctx.get_value("%b").is_err());
    let keep: Vec<Vec<String>> = Vec::new();
    let ctx = CoreContext::new(0, (0, 0, 0), SpyreMemoryHierarchy::new(1));
    let mut runner = CoreRunner { ctx, op_idx: 0, active: None };
    assert!(matches!(runner.step(&ops, &env, None, &keep, &mut outbox), Ok(Poll::Done)));
    assert!(matches!(runner.ctx.get_value("%b").unwrap(), Value::Scalar(lib::ir::Scalar::I64(10))));
}
