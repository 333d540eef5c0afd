//! Cross-function fusion: collapse a multi-function program whose nodes thread
//! intermediates through HBM into one function. A whole-tensor
//! producer-to-consumer edge is forwarded as an SSA value (its store / load
//! pair is dropped); every other tensor stays a pointer argument of the fused
//! function. Each node's SSA names get a node prefix so inlined bodies never
//! collide.

use vstd::prelude::*;
use std::collections::HashSet;
use std::collections::HashMap;
use crate::ir::{Attr, IRFunction, IRModule, Operation, OpView, attr_lookup};
use crate::keyed::{entries_map, find_key, has_key, keys_unique, lemma_empty, lemma_index_of, lemma_push_fresh, lemma_update_value};
use crate::metal_backend::first_fn;
use crate::text::{chars_to_string, nat_decimal, str_to_chars};
use crate::context::{normalize, normalize_name};

verus! {

/// One function argument's binding to a logical tensor and its direction.
#[derive(Clone, Debug)]
pub struct Binding {
    /// The function argument name (e.g. `%t335_ptr`).
    pub arg: String,
    /// Logical tensor id the argument points at.
    pub tensor: u64,
    /// True if the node writes this tensor, false if it reads it.
    pub is_output: bool,
}

/// One node of a program: a function name and how its arguments bind to tensors.
#[derive(Clone, Debug)]
pub struct NodeSpec {
    pub func: String,
    pub bindings: Vec<Binding>,
}

/// A multi-function program, nodes in execution order.
#[derive(Debug)]
pub struct ProgramSpec {
    pub nodes: Vec<NodeSpec>,
    /// Tensors provided from outside (weights / inputs): they stay pointer args.
    pub sources: HashSet<u64>,
    /// Final result tensors: they stay pointer args.
    pub results: HashSet<u64>,
}

// ---------------------------------------------------------------------------
// Per-function analysis
// ---------------------------------------------------------------------------

/// Result name -> index of its (last) defining top-level op.
pub open spec fn raw_defs(ops: Seq<Operation>) -> Map<Seq<char>, int>
    decreases ops.len(),
{
    if ops.len() == 0 {
        Map::empty()
    } else {
        let m = raw_defs(ops.drop_last());
        match ops.last().result {
            Some(r) => m.insert(r@, ops.len() - 1),
            None => m,
        }
    }
}

proof fn lemma_raw_defs_range(ops: Seq<Operation>)
    ensures
        forall|k: Seq<char>| #[trigger] raw_defs(ops).contains_key(k) ==> 0 <= raw_defs(ops)[k] < ops.len(),
    decreases ops.len(),
{
    if ops.len() > 0 {
        lemma_raw_defs_range(ops.drop_last());
        let m = raw_defs(ops.drop_last());
        assert forall|k: Seq<char>| #[trigger] raw_defs(ops).contains_key(k) implies 0 <= raw_defs(
            ops,
        )[k] < ops.len() by {
            match ops.last().result {
                Some(r) => {
                    if k != r@ {
                        assert(m.contains_key(k));
                    }
                },
                None => {
                    assert(m.contains_key(k));
                },
            }
        }
    }
}

/// `d` is the definitions table of `ops`.
pub open spec fn raw_defs_of(d: Seq<(Vec<char>, usize)>, ops: Seq<Operation>) -> bool {
    &&& keys_unique(d)
    &&& entries_map(d).dom() == raw_defs(ops).dom()
    &&& forall|k: Seq<char>| #[trigger] entries_map(d).contains_key(k) ==> entries_map(d)[k] as int == raw_defs(ops)[k]
}

/// Build the definitions table of `ops`.
fn raw_def_table(ops: &Vec<Operation>) -> (d: Vec<(Vec<char>, usize)>)
    ensures
        raw_defs_of(d@, ops@),
{
    let mut d: Vec<(Vec<char>, usize)> = Vec::new();
    proof {
        lemma_empty(d@);
        assert(entries_map(d@).dom() =~= raw_defs(ops@.subrange(0, 0)).dom());
    }
    let mut i: usize = 0;
    while i < ops.len()
        invariant
            0 <= i <= ops@.len(),
            raw_defs_of(d@, ops@.subrange(0, i as int)),
        decreases ops@.len() - i,
    {
        let ghost before = entries_map(d@);
        assert(ops@.subrange(0, i + 1).drop_last() =~= ops@.subrange(0, i as int));
        assert(ops@.subrange(0, i + 1).last() == ops@[i as int]);
        if let Some(r) = &ops[i].result {
            let key = str_to_chars(r.as_str());
            match find_key(&d, &key) {
                Some(j) => {
                    proof {
                        lemma_update_value(d@, j as int, (key, i));
                    }
                    d.set(j, (key, i));
                },
                None => {
                    proof {
                        lemma_push_fresh(d@, (key, i));
                    }
                    d.push((key, i));
                },
            }
            proof {
                assert(entries_map(d@) == before.insert(key@, i));
                assert(entries_map(d@).dom() =~= raw_defs(ops@.subrange(0, i + 1)).dom());
            }
        } else {
            proof {
                assert(entries_map(d@).dom() =~= raw_defs(ops@.subrange(0, i + 1)).dom());
            }
        }
        i = i + 1;
    }
    assert(ops@.subrange(0, ops@.len() as int) =~= ops@);
    d
}

/// Index of the op defining `name`, if any.
fn def_index(d: &Vec<(Vec<char>, usize)>, name: &String) -> (r: Option<usize>)
    requires
        keys_unique(d@),
    ensures
        r matches Some(i) ==> entries_map(d@).contains_key(name@) && entries_map(d@)[name@] == i,
        r is None ==> !entries_map(d@).contains_key(name@),
{
    let key = str_to_chars(name.as_str());
    match find_key(d, &key) {
        Some(j) => {
            proof {
                lemma_index_of(d@, j as int);
            }
            Some(d[j].1)
        },
        None => None,
    }
}

/// The integer-list `shape` attribute of an op.
pub open spec fn shape_of(op: Operation) -> Option<Seq<i64>> {
    match attr_lookup(op.attributes@, "shape"@) {
        Some(Attr::IntList(v)) => Some(v@),
        _ => None,
    }
}

fn shape_attr(op: &Operation) -> (r: Option<&Vec<i64>>)
    ensures
        r matches Some(v) ==> shape_of(*op) == Some(v@),
        r is None <==> shape_of(*op) is None,
{
    match op.get_attr("shape") {
        Some(Attr::IntList(v)) => Some(v),
        _ => None,
    }
}

/// A traced top-level `ktdp.load` / `ktdp.store`: the pointer argument it
/// touches, the SSA value loaded or stored, whether the access tile covers the
/// whole memory view, and the indices of the op, its access tile and its view.
pub struct ChainSpec {
    pub arg: Seq<char>,
    pub value: Seq<char>,
    pub whole: bool,
    pub main_idx: int,
    pub tile_idx: int,
    pub view_idx: int,
}

/// Trace access tile `tile` back to its memory view and pointer argument.
pub open spec fn chain_from(ops: Seq<Operation>, main: int, value: Seq<char>, tile: Seq<char>) -> Option<ChainSpec> {
    let defs = raw_defs(ops);
    if !defs.contains_key(tile) {
        None
    } else {
        let ti = defs[tile];
        let top = ops[ti];
        if top.operands@.len() == 0 || !defs.contains_key(top.operands@[0]@) {
            None
        } else {
            let vi = defs[top.operands@[0]@];
            let vop = ops[vi];
            if vop.operands@.len() == 0 {
                None
            } else {
                Some(
                    ChainSpec {
                        arg: vop.operands@[0]@,
                        value,
                        whole: match (shape_of(ops[ti]), shape_of(ops[vi])) {
                            (Some(ts), Some(vs)) => ts == vs,
                            _ => false,
                        },
                        main_idx: main,
                        tile_idx: ti,
                        view_idx: vi,
                    },
                )
            }
        }
    }
}

/// The traced chain of op `i` when it is a `ktdp.load` (`is_load`) or a
/// `ktdp.store` (`!is_load`) whose chain reaches a pointer argument.
pub open spec fn chain_at(ops: Seq<Operation>, i: int, is_load: bool) -> Option<ChainSpec> {
    let op = ops[i];
    if is_load {
        if op.op_type@ == "ktdp.load"@ && op.result is Some && op.operands@.len() > 0 {
            chain_from(ops, i, op.result->0@, op.operands@[0]@)
        } else {
            None
        }
    } else {
        if op.op_type@ == "ktdp.store"@ && op.operands@.len() > 1 {
            chain_from(ops, i, op.operands@[0]@, op.operands@[1]@)
        } else {
            None
        }
    }
}

/// The traced loads (`is_load`) or stores of the first `n` ops, in order.
pub open spec fn chains_upto(ops: Seq<Operation>, n: int, is_load: bool) -> Seq<ChainSpec>
    decreases n,
{
    if n <= 0 {
        Seq::empty()
    } else {
        let prev = chains_upto(ops, n - 1, is_load);
        match chain_at(ops, n - 1, is_load) {
            Some(c) => prev.push(c),
            None => prev,
        }
    }
}

/// All traced loads (`is_load`) or stores of a function body.
pub open spec fn chains(ops: Seq<Operation>, is_load: bool) -> Seq<ChainSpec> {
    chains_upto(ops, ops.len() as int, is_load)
}

/// A traced load or store (see [`ChainSpec`]).
struct Chain {
    arg: String,
    value: String,
    whole: bool,
    main_idx: usize,
    tile_idx: usize,
    view_idx: usize,
}

impl View for Chain {
    type V = ChainSpec;

    closed spec fn view(&self) -> ChainSpec {
        ChainSpec {
            arg: self.arg@,
            value: self.value@,
            whole: self.whole,
            main_idx: self.main_idx as int,
            tile_idx: self.tile_idx as int,
            view_idx: self.view_idx as int,
        }
    }
}

fn i64s_eq(a: &Vec<i64>, b: &Vec<i64>) -> (r: bool)
    ensures
        r == (a@ == b@),
{
    if a.len() != b.len() {
        return false;
    }
    let mut i: usize = 0;
    while i < a.len()
        invariant
            0 <= i <= a@.len(),
            a@.len() == b@.len(),
            forall|j: int| 0 <= j < i ==> a@[j] == b@[j],
        decreases a@.len() - i,
    {
        if a[i] != b[i] {
            return false;
        }
        i = i + 1;
    }
    assert(a@ =~= b@);
    true
}

fn trace_chain(ops: &Vec<Operation>, d: &Vec<(Vec<char>, usize)>, main: usize, value: &String, tile: &String) -> (r: Option<Chain>)
    requires
        raw_defs_of(d@, ops@),
    ensures
        r matches Some(c) ==> chain_from(ops@, main as int, value@, tile@) == Some(c@),
        r is None <==> chain_from(ops@, main as int, value@, tile@) is None,
{
    proof {
        lemma_raw_defs_range(ops@);
    }
    let ti = match def_index(d, tile) {
        Some(ti) => ti,
        None => return None,
    };
    let top = &ops[ti];
    if top.operands.len() == 0 {
        return None;
    }
    let vi = match def_index(d, &top.operands[0]) {
        Some(vi) => vi,
        None => return None,
    };
    let vop = &ops[vi];
    if vop.operands.len() == 0 {
        return None;
    }
    let whole = match (shape_attr(top), shape_attr(vop)) {
        (Some(ts), Some(vs)) => i64s_eq(ts, vs),
        _ => false,
    };
    Some(
        Chain {
            arg: vop.operands[0].clone(),
            value: value.clone(),
            whole,
            main_idx: main,
            tile_idx: ti,
            view_idx: vi,
        },
    )
}

/// The traced loads and stores of a function body.
struct Analysis {
    loads: Vec<Chain>,
    stores: Vec<Chain>,
}

spec fn chain_views(v: Seq<Chain>) -> Seq<ChainSpec> {
    v.map_values(|c: Chain| c@)
}

/// Trace each top-level `ktdp.load` / `ktdp.store` back through its access
/// tile and memory view to the pointer argument it touches.
fn analyze(func: &IRFunction) -> (a: Analysis)
    ensures
        chain_views(a.loads@) == chains(func.operations@, true),
        chain_views(a.stores@) == chains(func.operations@, false),
{
    let ops = &func.operations;
    let d = raw_def_table(ops);
    let mut loads: Vec<Chain> = Vec::new();
    let mut stores: Vec<Chain> = Vec::new();
    let mut i: usize = 0;
    while i < ops.len()
        invariant
            0 <= i <= ops@.len(),
            ops == &func.operations,
            raw_defs_of(d@, ops@),
            chain_views(loads@) == chains_upto(ops@, i as int, true),
            chain_views(stores@) == chains_upto(ops@, i as int, false),
        decreases ops@.len() - i,
    {
        let op = &ops[i];
        let ghost l0 = loads@;
        let ghost s0 = stores@;
        if crate::text::str_eq(op.op_type.as_str(), "ktdp.load") {
            proof {
                reveal_strlit("ktdp.load");
                reveal_strlit("ktdp.store");
            }
            assert(op.op_type@ != "ktdp.store"@) by {
                assert(op.op_type@[5] != "ktdp.store"@[5]);
            }
            if let Some(loaded) = &op.result {
                if op.operands.len() > 0 {
                    if let Some(c) = trace_chain(ops, &d, i, loaded, &op.operands[0]) {
                        loads.push(c);
                    }
                }
            }
        } else if crate::text::str_eq(op.op_type.as_str(), "ktdp.store") {
            if op.operands.len() > 1 {
                if let Some(c) = trace_chain(ops, &d, i, &op.operands[0], &op.operands[1]) {
                    stores.push(c);
                }
            }
        }
        assert(chain_views(loads@) =~= chains_upto(ops@, i + 1, true));
        assert(chain_views(stores@) =~= chains_upto(ops@, i + 1, false));
        i = i + 1;
    }
    Analysis { loads, stores }
}

// ---------------------------------------------------------------------------
// SSA renaming
// ---------------------------------------------------------------------------

/// `%foo` -> `%n<ni>_foo`: the node-local name of an SSA value.
pub open spec fn prefixed_spec(ni: nat, ssa: Seq<char>) -> Seq<char> {
    "%n"@ + nat_decimal(ni) + "_"@ + normalize(ssa)
}

/// An explicit mapping wins; otherwise an SSA name (leading `%`) gets the node
/// prefix, and any other token is kept.
pub open spec fn resolve_spec(ni: nat, name: Seq<char>, rn: Map<Seq<char>, Seq<char>>) -> Seq<char> {
    if rn.contains_key(name) {
        rn[name]
    } else if name.len() > 0 && name[0] == '%' {
        prefixed_spec(ni, name)
    } else {
        name
    }
}

/// An operation with its result, operands and nested regions renamed.
pub open spec fn rename_view(v: OpView, ni: nat, rn: Map<Seq<char>, Seq<char>>) -> OpView
    decreases v,
{
    OpView {
        result: match v.result {
            Some(r) => Some(resolve_spec(ni, r, rn)),
            None => None,
        },
        op_type: v.op_type,
        operands: v.operands.map_values(|o: Seq<char>| resolve_spec(ni, o, rn)),
        attributes: v.attributes,
        result_type: v.result_type,
        regions: Seq::new(
            v.regions.len(),
            |r: int|
                if 0 <= r < v.regions.len() {
                    Seq::new(
                        v.regions[r].len(),
                        |j: int|
                            if 0 <= j < v.regions[r].len() {
                                rename_view(v.regions[r][j], ni, rn)
                            } else {
                                v
                            },
                    )
                } else {
                    Seq::empty()
                },
        ),
    }
}

/// The map view of a rename table.
pub open spec fn rn_view(d: Seq<(Vec<char>, String)>) -> Map<Seq<char>, Seq<char>> {
    Map::new(|k: Seq<char>| entries_map(d).contains_key(k), |k: Seq<char>| entries_map(d)[k]@)
}

fn prefixed(ni: usize, ssa: &str) -> (s: String)
    ensures
        s@ == prefixed_spec(ni as nat, ssa@),
{
    let mut s = String::from_str("%n");
    let dec = crate::text::usize_to_decimal(ni);
    s.append(dec.as_str());
    s.append("_");
    let k = normalize_name(ssa);
    let ks = chars_to_string(&k);
    s.append(ks.as_str());
    proof {
        reveal_strlit("%n");
        reveal_strlit("_");
    }
    s
}

fn resolve(ni: usize, name: &String, rn: &Vec<(Vec<char>, String)>) -> (s: String)
    requires
        keys_unique(rn@),
    ensures
        s@ == resolve_spec(ni as nat, name@, rn_view(rn@)),
{
    let key = str_to_chars(name.as_str());
    match find_key(rn, &key) {
        Some(j) => {
            proof {
                lemma_index_of(rn@, j as int);
            }
            rn[j].1.clone()
        },
        None => {
            if key.len() > 0 && key[0] == '%' {
                prefixed(ni, name.as_str())
            } else {
                name.clone()
            }
        },
    }
}

/// Set `key` to `value` in a rename table (replacing an earlier value).
fn rn_insert(rn: &mut Vec<(Vec<char>, String)>, key: &String, value: String)
    requires
        keys_unique(old(rn)@),
    ensures
        keys_unique(final(rn)@),
        rn_view(final(rn)@) == rn_view(old(rn)@).insert(key@, value@),
{
    let k = str_to_chars(key.as_str());
    let ghost before = entries_map(rn@);
    match find_key(rn, &k) {
        Some(j) => {
            proof {
                lemma_update_value(rn@, j as int, (k, value));
            }
            rn.set(j, (k, value));
        },
        None => {
            proof {
                lemma_push_fresh(rn@, (k, value));
            }
            rn.push((k, value));
        },
    }
    assert(rn_view(rn@) =~= rn_view(old(rn)@).insert(key@, value@));
}

/// Whether `key` has an entry in a rename table.
fn rn_contains(rn: &Vec<(Vec<char>, String)>, key: &String) -> (b: bool)
    ensures
        b == rn_view(rn@).contains_key(key@),
{
    let k = str_to_chars(key.as_str());
    match find_key(rn, &k) {
        Some(j) => {
            assert(has_key(rn@, k@));
            true
        },
        None => false,
    }
}

/// Deep-copy an op with every SSA name (result, operands, nested regions)
/// resolved through `rn` for node `ni`.
fn rename_op(op: &Operation, ni: usize, rn: &Vec<(Vec<char>, String)>) -> (out: Operation)
    requires
        keys_unique(rn@),
    ensures
        out@ == rename_view(op@, ni as nat, rn_view(rn@)),
    decreases op,
{
    let ghost m = rn_view(rn@);
    let result = match &op.result {
        Some(r) => Some(resolve(ni, r, rn)),
        None => None,
    };
    let mut operands: Vec<String> = Vec::new();
    let mut i: usize = 0;
    while i < op.operands.len()
        invariant
            0 <= i <= op.operands@.len(),
            keys_unique(rn@),
            m == rn_view(rn@),
            operands@.len() == i,
            forall|j: int| 0 <= j < i ==> #[trigger] operands@[j]@ == resolve_spec(ni as nat, op.operands@[j]@, m),
        decreases op.operands@.len() - i,
    {
        operands.push(resolve(ni, &op.operands[i], rn));
        i = i + 1;
    }
    let mut attributes: Vec<(String, Attr)> = Vec::new();
    let mut i: usize = 0;
    while i < op.attributes.len()
        invariant
            0 <= i <= op.attributes@.len(),
            attributes@.len() == i,
            forall|j: int| 0 <= j < i ==> #[trigger] attributes@[j].0@ == op.attributes@[j].0@ && attributes@[j].1@ == op.attributes@[j].1@,
        decreases op.attributes@.len() - i,
    {
        attributes.push((op.attributes[i].0.clone(), op.attributes[i].1.clone()));
        i = i + 1;
    }
    let result_type = match &op.result_type {
        Some(t) => Some(t.clone()),
        None => None,
    };
    let mut regions: Vec<Vec<Operation>> = Vec::new();
    let mut r: usize = 0;
    while r < op.regions.len()
        invariant
            0 <= r <= op.regions@.len(),
            keys_unique(rn@),
            m == rn_view(rn@),
            regions@.len() == r,
            forall|a: int| 0 <= a < r ==> (#[trigger] regions@[a])@.len() == op.regions@[a]@.len(),
            forall|a: int, b: int|
                0 <= a < r && 0 <= b < regions@[a]@.len() ==> #[trigger] regions@[a]@[b]@ == rename_view(
                    op.regions@[a]@[b]@,
                    ni as nat,
                    m,
                ),
        decreases op.regions@.len() - r,
    {
        let region = &op.regions[r];
        let mut out: Vec<Operation> = Vec::new();
        let mut j: usize = 0;
        while j < region.len()
            invariant
                0 <= j <= region@.len(),
                region == &op.regions@[r as int],
                r < op.regions@.len(),
                keys_unique(rn@),
                m == rn_view(rn@),
                out@.len() == j,
                forall|b: int| 0 <= b < j ==> #[trigger] out@[b]@ == rename_view(region@[b]@, ni as nat, m),
            decreases region@.len() - j,
        {
            proof {
                vstd::std_specs::vec::axiom_vec_decreases_to_view(op.regions);
                vstd::std_specs::vec::axiom_vec_decreases_to_view(*region);
                assert(decreases_to!(*op => op.regions));
                assert(decreases_to!(op.regions => op.regions@));
                assert(decreases_to!(op.regions@ => op.regions@[r as int]));
                assert(decreases_to!(*region => region@));
                assert(decreases_to!(region@ => region@[j as int]));
            }
            out.push(rename_op(&region[j], ni, rn));
            j = j + 1;
        }
        regions.push(out);
        r = r + 1;
    }
    let res = Operation {
        result,
        op_type: op.op_type.clone(),
        operands,
        attributes,
        result_type,
        regions,
    };
    proof {
        let a = res@;
        let b = rename_view(op@, ni as nat, m);
        assert(a.operands =~= b.operands);
        assert(a.attributes =~= b.attributes);
        assert forall|x: int| 0 <= x < a.regions.len() implies a.regions[x] =~= b.regions[x] by {
            assert(a.regions[x].len() == res.regions@[x]@.len());
            assert(b.regions[x].len() == op@.regions[x].len());
            assert(op@.regions[x].len() == op.regions@[x]@.len());
            assert forall|y: int| 0 <= y < a.regions[x].len() implies a.regions[x][y] == b.regions[x][y] by {
                assert(a.regions[x][y] == res.regions@[x]@[y]@);
                assert(op@.regions[x][y] == op.regions@[x]@[y]@);
            }
        }
        assert(a.regions =~= b.regions);
    }
    res
}

// ---------------------------------------------------------------------------
// Program-level facts
// ---------------------------------------------------------------------------

/// Tensors written (`out`) or read (`!out`) by the first `n` bindings.
pub open spec fn bind_tensors(bs: Seq<Binding>, n: int, out: bool) -> Set<u64>
    decreases n,
{
    if n <= 0 {
        Set::empty()
    } else {
        let s = bind_tensors(bs, n - 1, out);
        if bs[n - 1].is_output == out {
            s.insert(bs[n - 1].tensor)
        } else {
            s
        }
    }
}

/// Tensors written (`out`) or read (`!out`) by the first `n` nodes.
pub open spec fn tensors_upto(nodes: Seq<NodeSpec>, n: int, out: bool) -> Set<u64>
    decreases n,
{
    if n <= 0 {
        Set::empty()
    } else {
        tensors_upto(nodes, n - 1, out).union(
            bind_tensors(nodes[n - 1].bindings@, nodes[n - 1].bindings@.len() as int, out),
        )
    }
}

/// Tensors produced by some node and consumed by another, neither a source
/// nor a final result: the candidates for SSA forwarding.
pub open spec fn intermediates(nodes: Seq<NodeSpec>, src: Set<u64>, res: Set<u64>) -> Set<u64> {
    tensors_upto(nodes, nodes.len() as int, true).intersect(tensors_upto(nodes, nodes.len() as int, false)).difference(
        src,
    ).difference(res)
}

/// Whether the first traced load of `arg` covers its whole tensor.
pub open spec fn first_load_whole(loads: Seq<ChainSpec>, arg: Seq<char>) -> bool
    decreases loads.len(),
{
    if loads.len() == 0 {
        false
    } else if loads[0].arg == arg {
        loads[0].whole
    } else {
        first_load_whole(loads.drop_first(), arg)
    }
}

/// Node `node` reads the tensor behind binding `b` with a whole-tensor load.
pub open spec fn reads_whole(fs: Seq<IRFunction>, node: NodeSpec, b: Binding) -> bool {
    match first_fn(fs, node.func@, 0) {
        Some(fi) => first_load_whole(chains(fs[fi].operations@, true), b.arg@),
        None => false,
    }
}

/// Every node that reads `t` does so with a whole-tensor load.
pub open spec fn all_read_whole(fs: Seq<IRFunction>, nodes: Seq<NodeSpec>, t: u64) -> bool {
    forall|i: int, j: int|
        0 <= i < nodes.len() && 0 <= j < nodes[i].bindings@.len() && !(#[trigger] nodes[i].bindings@[j]).is_output
            && nodes[i].bindings@[j].tensor == t ==> reads_whole(fs, nodes[i], nodes[i].bindings@[j])
}

proof fn lemma_first_fn_range(fs: Seq<IRFunction>, name: Seq<char>, i: int)
    ensures
        first_fn(fs, name, i) matches Some(k) ==> i <= k < fs.len() && fs[k].name@ == name,
    decreases fs.len() - i,
{
    if 0 <= i < fs.len() && fs[i].name@ != name {
        lemma_first_fn_range(fs, name, i + 1);
    }
}

/// Index of the first function named `name`.
pub(crate) fn fn_index(fs: &Vec<IRFunction>, name: &String) -> (r: Option<usize>)
    ensures
        r matches Some(i) ==> first_fn(fs@, name@, 0) == Some(i as int) && i < fs@.len(),
        r is None ==> first_fn(fs@, name@, 0) is None,
{
    proof {
        lemma_first_fn_range(fs@, name@, 0);
    }
    let mut i: usize = 0;
    while i < fs.len()
        invariant
            0 <= i <= fs@.len(),
            first_fn(fs@, name@, 0) == first_fn(fs@, name@, i as int),
        decreases fs@.len() - i,
    {
        if crate::text::str_eq(fs[i].name.as_str(), name.as_str()) {
            return Some(i);
        }
        i = i + 1;
    }
    None
}

/// Whether the first traced load of `arg` covers its whole tensor.
fn first_load_is_whole(loads: &Vec<Chain>, arg: &String) -> (b: bool)
    ensures
        b == first_load_whole(chain_views(loads@), arg@),
{
    let ghost cs = chain_views(loads@);
    assert(cs.subrange(0, cs.len() as int) =~= cs);
    let mut i: usize = 0;
    while i < loads.len()
        invariant
            0 <= i <= loads@.len(),
            cs == chain_views(loads@),
            first_load_whole(cs, arg@) == first_load_whole(cs.subrange(i as int, cs.len() as int), arg@),
        decreases loads@.len() - i,
    {
        let ghost rest = cs.subrange(i as int, cs.len() as int);
        assert(rest[0] == loads@[i as int]@);
        assert(rest.drop_first() =~= cs.subrange(i + 1, cs.len() as int));
        if crate::text::str_eq(loads[i].arg.as_str(), arg.as_str()) {
            return loads[i].whole;
        }
        i = i + 1;
    }
    false
}

/// True if every node that consumes `tensor` does so with a whole-tensor load.
fn all_consumers_whole(module: &IRModule, spec: &ProgramSpec, tensor: u64) -> (b: bool)
    ensures
        b == all_read_whole(module.functions@, spec.nodes@, tensor),
{
    let nodes = &spec.nodes;
    let mut i: usize = 0;
    while i < nodes.len()
        invariant
            0 <= i <= nodes@.len(),
            nodes == &spec.nodes,
            forall|a: int, c: int|
                0 <= a < i && 0 <= c < nodes@[a].bindings@.len() && !(#[trigger] nodes@[a].bindings@[c]).is_output
                    && nodes@[a].bindings@[c].tensor == tensor ==> reads_whole(
                    module.functions@,
                    nodes@[a],
                    nodes@[a].bindings@[c],
                ),
        decreases nodes@.len() - i,
    {
        let node = &nodes[i];
        let bs = &node.bindings;
        let mut j: usize = 0;
        while j < bs.len()
            invariant
                0 <= i < nodes@.len(),
                0 <= j <= bs@.len(),
                nodes == &spec.nodes,
                node == &nodes@[i as int],
                bs == &node.bindings,
                forall|a: int, c: int|
                    0 <= a < i && 0 <= c < nodes@[a].bindings@.len() && !(#[trigger] nodes@[a].bindings@[c]).is_output
                        && nodes@[a].bindings@[c].tensor == tensor ==> reads_whole(
                        module.functions@,
                        nodes@[a],
                        nodes@[a].bindings@[c],
                    ),
                forall|c: int|
                    0 <= c < j && !(#[trigger] bs@[c]).is_output && bs@[c].tensor == tensor ==> reads_whole(
                        module.functions@,
                        *node,
                        bs@[c],
                    ),
            decreases bs@.len() - j,
        {
            let b = &bs[j];
            if !b.is_output && b.tensor == tensor {
                let whole = match fn_index(&module.functions, &node.func) {
                    Some(fi) => {
                        let a = analyze(&module.functions[fi]);
                        first_load_is_whole(&a.loads, &b.arg)
                    },
                    None => false,
                };
                if !whole {
                    assert(!reads_whole(module.functions@, nodes@[i as int], nodes@[i as int].bindings@[j as int]));
                    return false;
                }
            }
            j = j + 1;
        }
        assert forall|a: int, c: int|
            0 <= a < i + 1 && 0 <= c < nodes@[a].bindings@.len() && !(#[trigger] nodes@[a].bindings@[c]).is_output
                && nodes@[a].bindings@[c].tensor == tensor implies reads_whole(
                module.functions@,
                nodes@[a],
                nodes@[a].bindings@[c],
            ) by {
            if a == i {
                assert(nodes@[a].bindings@[c] == bs@[c]);
            }
        }
        i = i + 1;
    }
    true
}

/// The last binding whose argument is `arg`.
pub open spec fn bind_for(bs: Seq<Binding>, arg: Seq<char>) -> Option<Binding>
    decreases bs.len(),
{
    if bs.len() == 0 {
        None
    } else if bs.last().arg@ == arg {
        Some(bs.last())
    } else {
        bind_for(bs.drop_last(), arg)
    }
}

fn binding_index(bs: &Vec<Binding>, arg: &String) -> (r: Option<usize>)
    ensures
        r matches Some(i) ==> i < bs@.len() && bind_for(bs@, arg@) == Some(bs@[i as int]),
        r is None ==> bind_for(bs@, arg@) is None,
{
    let mut i: usize = bs.len();
    assert(bs@.subrange(0, bs@.len() as int) =~= bs@);
    while i > 0
        invariant
            0 <= i <= bs@.len(),
            bind_for(bs@, arg@) == bind_for(bs@.subrange(0, i as int), arg@),
        decreases i,
    {
        let ghost pre = bs@.subrange(0, i as int);
        assert(pre.drop_last() =~= bs@.subrange(0, i - 1));
        if crate::text::str_eq(bs[i - 1].arg.as_str(), arg.as_str()) {
            return Some(i - 1);
        }
        i = i - 1;
    }
    None
}

// ---------------------------------------------------------------------------
// One node of the fusion
// ---------------------------------------------------------------------------

/// The op indices marked in `d`.
pub open spec fn dropped_set(d: Seq<bool>) -> Set<int> {
    Set::new(|i: int| 0 <= i < d.len() && d[i])
}

/// A tensor -> SSA-name table as characters.
pub open spec fn str_map_view(m: Map<u64, String>) -> Map<u64, Seq<char>> {
    Map::new(|k: u64| m.contains_key(k), |k: u64| m[k]@)
}

/// Mark a chain's op, access tile and memory view as dropped.
pub open spec fn add_chain(d: Set<int>, c: ChainSpec) -> Set<int> {
    d.insert(c.main_idx).insert(c.tile_idx).insert(c.view_idx)
}

/// Forwarding of whole-tensor intermediate inputs, over the first `n` loads:
/// the loaded SSA value is aliased to the producer's value and its
/// view / tile / load chain is dropped.
pub open spec fn loads_pass(
    loads: Seq<ChainSpec>,
    n: int,
    bs: Seq<Binding>,
    inter: Set<u64>,
    produced: Map<u64, Seq<char>>,
) -> (Map<Seq<char>, Seq<char>>, Set<int>)
    decreases n,
{
    if n <= 0 {
        (Map::empty(), Set::empty())
    } else {
        let prev = loads_pass(loads, n - 1, bs, inter, produced);
        let ld = loads[n - 1];
        match bind_for(bs, ld.arg) {
            Some(b) => if !b.is_output && ld.whole && inter.contains(b.tensor) && produced.contains_key(b.tensor) {
                (prev.0.insert(ld.value, produced[b.tensor]), add_chain(prev.1, ld))
            } else {
                prev
            },
            None => prev,
        }
    }
}

/// Forwarding of whole-tensor intermediate outputs, over the first `n`
/// stores: when every consumer reads the tensor whole, the store chain is
/// dropped and the stored value (node-prefixed) becomes the tensor's producer.
pub open spec fn stores_pass(
    stores: Seq<ChainSpec>,
    n: int,
    bs: Seq<Binding>,
    inter: Set<u64>,
    read_whole: Set<u64>,
    ni: nat,
    dropped: Set<int>,
    produced: Map<u64, Seq<char>>,
) -> (Set<int>, Map<u64, Seq<char>>)
    decreases n,
{
    if n <= 0 {
        (dropped, produced)
    } else {
        let prev = stores_pass(stores, n - 1, bs, inter, read_whole, ni, dropped, produced);
        let st = stores[n - 1];
        match bind_for(bs, st.arg) {
            Some(b) => if b.is_output && st.whole && inter.contains(b.tensor) && read_whole.contains(b.tensor) {
                (add_chain(prev.0, st), prev.1.insert(b.tensor, prefixed_spec(ni, st.value)))
            } else {
                prev
            },
            None => prev,
        }
    }
}

/// Canonical pointer-argument name of tensor `t`: `%t<t>_ptr`.
pub open spec fn ptr_name(t: u64) -> Seq<char> {
    "%t"@ + nat_decimal(t as nat) + "_ptr"@
}

/// Some needed argument is for tensor `t`.
pub open spec fn needs_tensor(needed: Seq<(u64, Seq<char>)>, t: u64) -> bool {
    exists|k: int| 0 <= k < needed.len() && (#[trigger] needed[k]).0 == t
}

/// Some load of `arg` had its loaded value forwarded.
pub open spec fn forwarded_in(loads: Seq<ChainSpec>, arg: Seq<char>, rn: Map<Seq<char>, Seq<char>>) -> bool {
    exists|k: int| 0 <= k < loads.len() && (#[trigger] loads[k]).arg == arg && rn.contains_key(loads[k].value)
}

/// Over the first `n` bindings: an argument whose chain was not forwarded
/// becomes the canonical fused-function argument of its tensor, added once.
pub open spec fn binds_pass(
    bs: Seq<Binding>,
    n: int,
    loads: Seq<ChainSpec>,
    produced: Map<u64, Seq<char>>,
    rn: Map<Seq<char>, Seq<char>>,
    needed: Seq<(u64, Seq<char>)>,
) -> (Map<Seq<char>, Seq<char>>, Seq<(u64, Seq<char>)>)
    decreases n,
{
    if n <= 0 {
        (rn, needed)
    } else {
        let prev = binds_pass(bs, n - 1, loads, produced, rn, needed);
        let b = bs[n - 1];
        if !forwarded_in(loads, b.arg@, prev.0) && !(produced.contains_key(b.tensor) && b.is_output) {
            let canon = ptr_name(b.tensor);
            (
                prev.0.insert(b.arg@, canon),
                if needs_tensor(prev.1, b.tensor) {
                    prev.1
                } else {
                    prev.1.push((b.tensor, canon))
                },
            )
        } else {
            prev
        }
    }
}

/// The first `n` ops, renamed, without the dropped ones.
pub open spec fn emit_upto(ops: Seq<Operation>, n: int, dropped: Set<int>, ni: nat, rn: Map<Seq<char>, Seq<char>>) -> Seq<OpView>
    decreases n,
{
    if n <= 0 {
        Seq::empty()
    } else {
        let prev = emit_upto(ops, n - 1, dropped, ni, rn);
        if dropped.contains(n - 1) {
            prev
        } else {
            prev.push(rename_view(ops[n - 1]@, ni, rn))
        }
    }
}

/// The pairs of a needed-argument list as characters.
pub open spec fn pairs_view(v: Seq<(u64, String)>) -> Seq<(u64, Seq<char>)> {
    v.map_values(|p: (u64, String)| (p.0, p.1@))
}

proof fn lemma_chain_in_range(ops: Seq<Operation>, i: int, is_load: bool)
    requires
        0 <= i < ops.len(),
        chain_at(ops, i, is_load) is Some,
    ensures
        ({
            let c = chain_at(ops, i, is_load)->0;
            &&& c.main_idx == i
            &&& 0 <= c.tile_idx < ops.len()
            &&& 0 <= c.view_idx < ops.len()
        }),
{
    lemma_raw_defs_range(ops);
}

proof fn lemma_chains_in_range(ops: Seq<Operation>, n: int, is_load: bool)
    requires
        n <= ops.len(),
    ensures
        forall|k: int|
            0 <= k < chains_upto(ops, n, is_load).len() ==> {
                let c = #[trigger] chains_upto(ops, n, is_load)[k];
                &&& 0 <= c.main_idx < ops.len()
                &&& 0 <= c.tile_idx < ops.len()
                &&& 0 <= c.view_idx < ops.len()
            },
    decreases n,
{
    if n > 0 {
        lemma_chains_in_range(ops, n - 1, is_load);
        let prev = chains_upto(ops, n - 1, is_load);
        let cur = chains_upto(ops, n, is_load);
        if chain_at(ops, n - 1, is_load) is Some {
            lemma_chain_in_range(ops, n - 1, is_load);
        }
        assert forall|k: int| 0 <= k < cur.len() implies {
            let c = #[trigger] cur[k];
            &&& 0 <= c.main_idx < ops.len()
            &&& 0 <= c.tile_idx < ops.len()
            &&& 0 <= c.view_idx < ops.len()
        } by {
            if k < prev.len() {
                assert(cur[k] == prev[k]);
            }
        }
    }
}

fn mark_chain(dropped: &mut Vec<bool>, c: &Chain)
    requires
        c.main_idx < old(dropped)@.len(),
        c.tile_idx < old(dropped)@.len(),
        c.view_idx < old(dropped)@.len(),
    ensures
        final(dropped)@.len() == old(dropped)@.len(),
        dropped_set(final(dropped)@) == add_chain(dropped_set(old(dropped)@), c@),
{
    dropped.set(c.main_idx, true);
    dropped.set(c.tile_idx, true);
    dropped.set(c.view_idx, true);
    assert(dropped_set(dropped@) =~= add_chain(dropped_set(old(dropped)@), c@));
}

/// Whether `t` is a forwarding candidate, given the program's written and read
/// tensor sets.
fn is_intermediate(written: &HashSet<u64>, read: &HashSet<u64>, spec: &ProgramSpec, t: u64) -> (b: bool)
    requires
        written@ == tensors_upto(spec.nodes@, spec.nodes@.len() as int, true),
        read@ == tensors_upto(spec.nodes@, spec.nodes@.len() as int, false),
    ensures
        b == intermediates(spec.nodes@, spec.sources@, spec.results@).contains(t),
{
    written.contains(&t) && read.contains(&t) && !spec.sources.contains(&t) && !spec.results.contains(&t)
}

/// The loads pass of one node.
fn forward_loads(
    loads: &Vec<Chain>,
    bs: &Vec<Binding>,
    written: &HashSet<u64>,
    read: &HashSet<u64>,
    spec: &ProgramSpec,
    produced: &HashMap<u64, String>,
    rn: &mut Vec<(Vec<char>, String)>,
    dropped: &mut Vec<bool>,
    Ghost(n_ops): Ghost<int>,
)
    requires
        written@ == tensors_upto(spec.nodes@, spec.nodes@.len() as int, true),
        read@ == tensors_upto(spec.nodes@, spec.nodes@.len() as int, false),
        old(rn)@.len() == 0,
        old(dropped)@.len() == n_ops,
        forall|i: int| 0 <= i < n_ops ==> !old(dropped)@[i],
        forall|k: int|
            0 <= k < loads@.len() ==> {
                let c = #[trigger] loads@[k]@;
                &&& 0 <= c.main_idx < n_ops
                &&& 0 <= c.tile_idx < n_ops
                &&& 0 <= c.view_idx < n_ops
            },
    ensures
        keys_unique(final(rn)@),
        final(dropped)@.len() == n_ops,
        (rn_view(final(rn)@), dropped_set(final(dropped)@)) == loads_pass(
            chain_views(loads@),
            loads@.len() as int,
            bs@,
            intermediates(spec.nodes@, spec.sources@, spec.results@),
            str_map_view(produced@),
        ),
{
    let ghost cs = chain_views(loads@);
    let ghost inter = intermediates(spec.nodes@, spec.sources@, spec.results@);
    let ghost pm = str_map_view(produced@);
    proof {
        lemma_empty(rn@);
        assert(rn_view(rn@) =~= Map::empty());
        assert(dropped_set(dropped@) =~= Set::empty());
    }
    let mut k: usize = 0;
    while k < loads.len()
        invariant
            0 <= k <= loads@.len(),
            cs == chain_views(loads@),
            written@ == tensors_upto(spec.nodes@, spec.nodes@.len() as int, true),
            read@ == tensors_upto(spec.nodes@, spec.nodes@.len() as int, false),
            inter == intermediates(spec.nodes@, spec.sources@, spec.results@),
            pm == str_map_view(produced@),
            keys_unique(rn@),
            dropped@.len() == n_ops,
            forall|j: int|
                0 <= j < loads@.len() ==> {
                    let c = #[trigger] loads@[j]@;
                    &&& 0 <= c.main_idx < n_ops
                    &&& 0 <= c.tile_idx < n_ops
                    &&& 0 <= c.view_idx < n_ops
                },
            (rn_view(rn@), dropped_set(dropped@)) == loads_pass(cs, k as int, bs@, inter, pm),
        decreases loads@.len() - k,
    {
        let ld = &loads[k];
        assert(cs[k as int] == ld@);
        match binding_index(bs, &ld.arg) {
            Some(bi) => {
                let b = &bs[bi];
                if !b.is_output && ld.whole && is_intermediate(written, read, spec, b.tensor) {
                    match produced.get(&b.tensor) {
                        Some(val) => {
                            rn_insert(rn, &ld.value, val.clone());
                            assert(loads@[k as int]@ == ld@);
                            mark_chain(dropped, ld);
                        },
                        None => {},
                    }
                }
            },
            None => {},
        }
        k = k + 1;
    }
}

/// The stores pass of one node.
fn forward_stores(
    module: &IRModule,
    stores: &Vec<Chain>,
    bs: &Vec<Binding>,
    written: &HashSet<u64>,
    read: &HashSet<u64>,
    spec: &ProgramSpec,
    ni: usize,
    produced: &mut HashMap<u64, String>,
    dropped: &mut Vec<bool>,
)
    requires
        written@ == tensors_upto(spec.nodes@, spec.nodes@.len() as int, true),
        read@ == tensors_upto(spec.nodes@, spec.nodes@.len() as int, false),
        forall|k: int|
            0 <= k < stores@.len() ==> {
                let c = #[trigger] stores@[k]@;
                &&& 0 <= c.main_idx < old(dropped)@.len()
                &&& 0 <= c.tile_idx < old(dropped)@.len()
                &&& 0 <= c.view_idx < old(dropped)@.len()
            },
    ensures
        final(dropped)@.len() == old(dropped)@.len(),
        (dropped_set(final(dropped)@), str_map_view(final(produced)@)) == stores_pass(
            chain_views(stores@),
            stores@.len() as int,
            bs@,
            intermediates(spec.nodes@, spec.sources@, spec.results@),
            Set::new(|t: u64| all_read_whole(module.functions@, spec.nodes@, t)),
            ni as nat,
            dropped_set(old(dropped)@),
            str_map_view(old(produced)@),
        ),
{
    let ghost cs = chain_views(stores@);
    let ghost inter = intermediates(spec.nodes@, spec.sources@, spec.results@);
    let ghost rw = Set::new(|t: u64| all_read_whole(module.functions@, spec.nodes@, t));
    let ghost d0 = dropped_set(dropped@);
    let ghost p0 = str_map_view(produced@);
    let ghost n_ops = dropped@.len();
    let mut k: usize = 0;
    while k < stores.len()
        invariant
            0 <= k <= stores@.len(),
            cs == chain_views(stores@),
            written@ == tensors_upto(spec.nodes@, spec.nodes@.len() as int, true),
            read@ == tensors_upto(spec.nodes@, spec.nodes@.len() as int, false),
            inter == intermediates(spec.nodes@, spec.sources@, spec.results@),
            rw == Set::new(|t: u64| all_read_whole(module.functions@, spec.nodes@, t)),
            dropped@.len() == n_ops,
            forall|j: int|
                0 <= j < stores@.len() ==> {
                    let c = #[trigger] stores@[j]@;
                    &&& 0 <= c.main_idx < n_ops
                    &&& 0 <= c.tile_idx < n_ops
                    &&& 0 <= c.view_idx < n_ops
                },
            (dropped_set(dropped@), str_map_view(produced@)) == stores_pass(cs, k as int, bs@, inter, rw, ni as nat, d0, p0),
        decreases stores@.len() - k,
    {
        let st = &stores[k];
        assert(cs[k as int] == st@);
        match binding_index(bs, &st.arg) {
            Some(bi) => {
                let b = &bs[bi];
                if b.is_output && st.whole && is_intermediate(written, read, spec, b.tensor) {
                    if all_consumers_whole(module, spec, b.tensor) {
                        assert(stores@[k as int]@ == st@);
                        mark_chain(dropped, st);
                        let name = prefixed(ni, st.value.as_str());
                        let ghost before = produced@;
                        produced.insert(b.tensor, name);
                        assert(str_map_view(produced@) =~= str_map_view(before).insert(
                            b.tensor,
                            prefixed_spec(ni as nat, st.value@),
                        ));
                    }
                }
            },
            None => {},
        }
        k = k + 1;
    }
}

fn ptr_arg_name(t: u64) -> (s: String)
    ensures
        s@ == ptr_name(t),
{
    let mut s = String::from_str("%t");
    let dec = crate::text::u64_to_decimal(t);
    s.append(dec.as_str());
    s.append("_ptr");
    proof {
        reveal_strlit("%t");
        reveal_strlit("_ptr");
    }
    s
}

/// Whether some load of `arg` had its loaded value forwarded.
fn any_forwarded(loads: &Vec<Chain>, arg: &String, rn: &Vec<(Vec<char>, String)>) -> (b: bool)
    ensures
        b == forwarded_in(chain_views(loads@), arg@, rn_view(rn@)),
{
    let ghost cs = chain_views(loads@);
    let mut k: usize = 0;
    while k < loads.len()
        invariant
            0 <= k <= loads@.len(),
            cs == chain_views(loads@),
            forall|j: int| 0 <= j < k ==> !((#[trigger] cs[j]).arg == arg@ && rn_view(rn@).contains_key(cs[j].value)),
        decreases loads@.len() - k,
    {
        assert(cs[k as int] == loads@[k as int]@);
        if crate::text::str_eq(loads[k].arg.as_str(), arg.as_str()) && rn_contains(rn, &loads[k].value) {
            return true;
        }
        k = k + 1;
    }
    false
}

/// The bindings pass of one node.
fn bind_args(
    loads: &Vec<Chain>,
    bs: &Vec<Binding>,
    produced: &HashMap<u64, String>,
    rn: &mut Vec<(Vec<char>, String)>,
    needed: &mut Vec<(u64, String)>,
    have: &mut HashSet<u64>,
)
    requires
        keys_unique(old(rn)@),
        forall|t: u64| old(have)@.contains(t) <==> needs_tensor(pairs_view(old(needed)@), t),
    ensures
        keys_unique(final(rn)@),
        forall|t: u64| final(have)@.contains(t) <==> needs_tensor(pairs_view(final(needed)@), t),
        (rn_view(final(rn)@), pairs_view(final(needed)@)) == binds_pass(
            bs@,
            bs@.len() as int,
            chain_views(loads@),
            str_map_view(produced@),
            rn_view(old(rn)@),
            pairs_view(old(needed)@),
        ),
{
    let ghost cs = chain_views(loads@);
    let ghost pm = str_map_view(produced@);
    let ghost r0 = rn_view(rn@);
    let ghost n0 = pairs_view(needed@);
    let mut j: usize = 0;
    while j < bs.len()
        invariant
            0 <= j <= bs@.len(),
            cs == chain_views(loads@),
            pm == str_map_view(produced@),
            keys_unique(rn@),
            forall|t: u64| have@.contains(t) <==> needs_tensor(pairs_view(needed@), t),
            (rn_view(rn@), pairs_view(needed@)) == binds_pass(bs@, j as int, cs, pm, r0, n0),
        decreases bs@.len() - j,
    {
        let b = &bs[j];
        let fin = any_forwarded(loads, &b.arg, rn);
        let fout = produced.contains_key(&b.tensor) && b.is_output;
        if !fin && !fout {
            let canon = ptr_arg_name(b.tensor);
            rn_insert(rn, &b.arg, canon.clone());
            let ghost nd = needed@;
            if have.insert(b.tensor) {
                needed.push((b.tensor, canon));
                proof {
                    assert(pairs_view(needed@) =~= pairs_view(nd).push((b.tensor, ptr_name(b.tensor))));
                    assert forall|t: u64| needs_tensor(pairs_view(needed@), t) implies have@.contains(t) by {
                        {
                            let k = choose|k: int| 0 <= k < pairs_view(needed@).len() && (#[trigger] pairs_view(needed@)[k]).0 == t;
                            if k < nd.len() {
                                assert(pairs_view(nd)[k] == pairs_view(needed@)[k]);
                            }
                        }
                    }
                    assert forall|t: u64| have@.contains(t) implies needs_tensor(pairs_view(needed@), t) by {
                        {
                            if t == b.tensor {
                                assert(pairs_view(needed@)[nd.len() as int].0 == t);
                            } else {
                                let k = choose|k: int| 0 <= k < pairs_view(nd).len() && (#[trigger] pairs_view(nd)[k]).0 == t;
                                assert(pairs_view(needed@)[k] == pairs_view(nd)[k]);
                            }
                        }
                    }
                }
            }
        }
        j = j + 1;
    }
}

/// Append node `ni`'s ops, renamed, without the dropped ones.
fn emit_ops(
    ops: &Vec<Operation>,
    dropped: &Vec<bool>,
    ni: usize,
    rn: &Vec<(Vec<char>, String)>,
    body: &mut Vec<Operation>,
)
    requires
        keys_unique(rn@),
        dropped@.len() == ops@.len(),
    ensures
        final(body)@.map_values(|o: Operation| o@) == old(body)@.map_values(|o: Operation| o@) + emit_upto(
            ops@,
            ops@.len() as int,
            dropped_set(dropped@),
            ni as nat,
            rn_view(rn@),
        ),
{
    let ghost b0 = body@.map_values(|o: Operation| o@);
    let ghost ds = dropped_set(dropped@);
    assert(body@.map_values(|o: Operation| o@) =~= b0 + emit_upto(ops@, 0, ds, ni as nat, rn_view(rn@)));
    let mut i: usize = 0;
    while i < ops.len()
        invariant
            0 <= i <= ops@.len(),
            dropped@.len() == ops@.len(),
            ds == dropped_set(dropped@),
            keys_unique(rn@),
            body@.map_values(|o: Operation| o@) == b0 + emit_upto(ops@, i as int, ds, ni as nat, rn_view(rn@)),
        decreases ops@.len() - i,
    {
        let ghost before = body@;
        if !dropped[i] {
            assert(!ds.contains(i as int));
            let o = rename_op(&ops[i], ni, rn);
            body.push(o);
            assert(body@.map_values(|o: Operation| o@) =~= before.map_values(|o: Operation| o@).push(o@));
        } else {
            assert(ds.contains(i as int));
        }
        i = i + 1;
    }
}

// ---------------------------------------------------------------------------
// The whole program
// ---------------------------------------------------------------------------

/// Fusion state after some nodes: tensor -> forwarded SSA value, the pointer
/// arguments still needed (tensor, canonical name) in first-use order, and the
/// fused body so far.
pub struct FuseState {
    pub produced: Map<u64, Seq<char>>,
    pub needed: Seq<(u64, Seq<char>)>,
    pub body: Seq<OpView>,
}

/// Inline node `ni` into state `st`; `None` when its function is missing.
pub open spec fn node_step(
    fs: Seq<IRFunction>,
    nodes: Seq<NodeSpec>,
    src: Set<u64>,
    res: Set<u64>,
    ni: int,
    st: FuseState,
) -> Option<FuseState> {
    match first_fn(fs, nodes[ni].func@, 0) {
        None => None,
        Some(fi) => {
            let ops = fs[fi].operations@;
            let loads = chains(ops, true);
            let stores = chains(ops, false);
            let bs = nodes[ni].bindings@;
            let inter = intermediates(nodes, src, res);
            let rw = Set::new(|t: u64| all_read_whole(fs, nodes, t));
            let lp = loads_pass(loads, loads.len() as int, bs, inter, st.produced);
            let sp = stores_pass(stores, stores.len() as int, bs, inter, rw, ni as nat, lp.1, st.produced);
            let bp = binds_pass(bs, bs.len() as int, loads, sp.1, lp.0, st.needed);
            Some(
                FuseState {
                    produced: sp.1,
                    needed: bp.1,
                    body: st.body + emit_upto(ops, ops.len() as int, sp.0, ni as nat, bp.0),
                },
            )
        },
    }
}

/// The state after the first `n` nodes, or the name of the first node
/// function that is missing.
pub open spec fn fuse_upto(fs: Seq<IRFunction>, nodes: Seq<NodeSpec>, src: Set<u64>, res: Set<u64>, n: int) -> Result<
    FuseState,
    Seq<char>,
>
    decreases n,
{
    if n <= 0 {
        Ok(FuseState { produced: Map::empty(), needed: Seq::empty(), body: Seq::empty() })
    } else {
        match fuse_upto(fs, nodes, src, res, n - 1) {
            Err(e) => Err(e),
            Ok(st) => match node_step(fs, nodes, src, res, n - 1, st) {
                Some(s2) => Ok(s2),
                None => Err(nodes[n - 1].func@),
            },
        }
    }
}

proof fn lemma_fuse_err_sticks(fs: Seq<IRFunction>, nodes: Seq<NodeSpec>, src: Set<u64>, res: Set<u64>, n: int, m: int)
    requires
        n <= m,
        fuse_upto(fs, nodes, src, res, n) is Err,
    ensures
        fuse_upto(fs, nodes, src, res, m) == fuse_upto(fs, nodes, src, res, n),
    decreases m - n,
{
    if n < m {
        lemma_fuse_err_sticks(fs, nodes, src, res, n, m - 1);
    }
}

/// Argument class: sources first, then unforwarded intermediates, then results.
pub open spec fn arg_class(src: Set<u64>, res: Set<u64>, t: u64) -> int {
    if src.contains(t) {
        0
    } else if res.contains(t) {
        2
    } else {
        1
    }
}

/// The (class, tensor id) key of `a` is at most that of `b`.
pub open spec fn key_le(src: Set<u64>, res: Set<u64>, a: u64, b: u64) -> bool {
    arg_class(src, res, a) < arg_class(src, res, b) || (arg_class(src, res, a) == arg_class(src, res, b) && a <= b)
}

/// Insert `x` into key-sorted `s` after every element whose key is at most its own.
pub open spec fn insert_by_key(s: Seq<(u64, Seq<char>)>, x: (u64, Seq<char>), src: Set<u64>, res: Set<u64>) -> Seq<
    (u64, Seq<char>),
>
    decreases s.len(),
{
    if s.len() == 0 {
        seq![x]
    } else if !key_le(src, res, s[0].0, x.0) {
        seq![x] + s
    } else {
        seq![s[0]] + insert_by_key(s.drop_first(), x, src, res)
    }
}

/// Stable sort of `s` by (class, tensor id).
pub open spec fn sort_by_key(s: Seq<(u64, Seq<char>)>, src: Set<u64>, res: Set<u64>) -> Seq<(u64, Seq<char>)>
    decreases s.len(),
{
    if s.len() == 0 {
        s
    } else {
        insert_by_key(sort_by_key(s.drop_last(), src, res), s.last(), src, res)
    }
}

proof fn lemma_insert_split(s: Seq<(u64, Seq<char>)>, x: (u64, Seq<char>), src: Set<u64>, res: Set<u64>, k: int)
    requires
        0 <= k <= s.len(),
        forall|j: int| 0 <= j < k ==> key_le(src, res, #[trigger] s[j].0, x.0),
        k == s.len() || !key_le(src, res, s[k].0, x.0),
    ensures
        insert_by_key(s, x, src, res) == s.subrange(0, k) + seq![x] + s.subrange(k, s.len() as int),
    decreases k,
{
    if k == 0 {
        if s.len() == 0 {
            assert(s.subrange(0, k) + seq![x] + s.subrange(k, s.len() as int) =~= seq![x]);
        } else {
            assert(s.subrange(0, k) + seq![x] + s.subrange(k, s.len() as int) =~= seq![x] + s);
        }
    } else {
        let t = s.drop_first();
        assert forall|j: int| 0 <= j < k - 1 implies key_le(src, res, #[trigger] t[j].0, x.0) by {
            assert(t[j] == s[j + 1]);
        }
        if k < s.len() {
            assert(t[k - 1] == s[k]);
        }
        lemma_insert_split(t, x, src, res, k - 1);
        assert(key_le(src, res, s[0].0, x.0));
        assert(s.subrange(0, k) + seq![x] + s.subrange(k, s.len() as int) =~= seq![s[0]] + (t.subrange(0, k - 1)
            + seq![x] + t.subrange(k - 1, t.len() as int)));
    }
}

fn arg_class_of(spec: &ProgramSpec, t: u64) -> (c: u8)
    ensures
        c as int == arg_class(spec.sources@, spec.results@, t),
{
    if spec.sources.contains(&t) {
        0
    } else if spec.results.contains(&t) {
        2
    } else {
        1
    }
}

fn arg_key_le(spec: &ProgramSpec, a: u64, b: u64) -> (r: bool)
    ensures
        r == key_le(spec.sources@, spec.results@, a, b),
{
    let ca = arg_class_of(spec, a);
    let cb = arg_class_of(spec, b);
    ca < cb || (ca == cb && a <= b)
}

fn insert_arg(s: &Vec<(u64, String)>, x: (u64, String), spec: &ProgramSpec) -> (r: Vec<(u64, String)>)
    ensures
        pairs_view(r@) == insert_by_key(pairs_view(s@), (x.0, x.1@), spec.sources@, spec.results@),
{
    let ghost ps = pairs_view(s@);
    let ghost xv = (x.0, x.1@);
    let mut r: Vec<(u64, String)> = Vec::new();
    let mut k: usize = 0;
    while k < s.len() && arg_key_le(spec, s[k].0, x.0)
        invariant
            0 <= k <= s@.len(),
            ps == pairs_view(s@),
            xv == (x.0, x.1@),
            pairs_view(r@) == ps.subrange(0, k as int),
            forall|j: int| 0 <= j < k ==> key_le(spec.sources@, spec.results@, #[trigger] ps[j].0, x.0),
        decreases s@.len() - k,
    {
        let ghost before = r@;
        let item = (s[k].0, s[k].1.clone());
        r.push(item);
        assert(pairs_view(r@) =~= pairs_view(before).push((item.0, item.1@)));
        assert(ps[k as int] == (item.0, item.1@));
        assert(pairs_view(r@) =~= ps.subrange(0, k + 1));
        k = k + 1;
    }
    proof {
        lemma_insert_split(ps, xv, spec.sources@, spec.results@, k as int);
    }
    let ghost mid = k;
    let ghost before = r@;
    r.push(x);
    assert(pairs_view(r@) =~= pairs_view(before).push(xv));
    assert(pairs_view(r@) =~= ps.subrange(0, k as int) + seq![xv]);
    while k < s.len()
        invariant
            mid <= k <= s@.len(),
            ps == pairs_view(s@),
            pairs_view(r@) == ps.subrange(0, mid as int) + seq![xv] + ps.subrange(mid as int, k as int),
        decreases s@.len() - k,
    {
        let ghost before = r@;
        let item = (s[k].0, s[k].1.clone());
        r.push(item);
        assert(pairs_view(r@) =~= pairs_view(before).push((item.0, item.1@)));
        assert(ps[k as int] == (item.0, item.1@));
        assert(pairs_view(r@) =~= ps.subrange(0, mid as int) + seq![xv] + ps.subrange(mid as int, k + 1));
        k = k + 1;
    }
    r
}

/// The needed arguments in (class, tensor id) order.
fn sort_args(needed: &Vec<(u64, String)>, spec: &ProgramSpec) -> (r: Vec<(u64, String)>)
    ensures
        pairs_view(r@) == sort_by_key(pairs_view(needed@), spec.sources@, spec.results@),
{
    let ghost ps = pairs_view(needed@);
    let mut out: Vec<(u64, String)> = Vec::new();
    let mut i: usize = 0;
    assert(pairs_view(out@) =~= sort_by_key(ps.subrange(0, 0), spec.sources@, spec.results@));
    while i < needed.len()
        invariant
            0 <= i <= needed@.len(),
            ps == pairs_view(needed@),
            pairs_view(out@) == sort_by_key(ps.subrange(0, i as int), spec.sources@, spec.results@),
        decreases needed@.len() - i,
    {
        assert(ps.subrange(0, i + 1).drop_last() =~= ps.subrange(0, i as int));
        assert(ps.subrange(0, i + 1).last() == (needed@[i as int].0, needed@[i as int].1@));
        out = insert_arg(&out, (needed[i].0, needed[i].1.clone()), spec);
        i = i + 1;
    }
    assert(ps.subrange(0, needed@.len() as int) =~= ps);
    out
}

/// The view of a `func.return` with no operands.
pub open spec fn return_view() -> OpView {
    OpView {
        result: None,
        op_type: "func.return"@,
        operands: Seq::empty(),
        attributes: Seq::empty(),
        result_type: None,
        regions: Seq::empty(),
    }
}

/// Launch grid of the fused function: that of the first node, else `(1, 1, 1)`.
pub open spec fn fused_grid(fs: Seq<IRFunction>, nodes: Seq<NodeSpec>) -> (usize, usize, usize) {
    if nodes.len() == 0 {
        (1, 1, 1)
    } else {
        match first_fn(fs, nodes[0].func@, 0) {
            Some(fi) => fs[fi].grid,
            None => (1, 1, 1),
        }
    }
}

/// `f` is the fused function built from final state `st`: named `fused`, its
/// arguments the needed pointers in (class, tensor id) order, each of type
/// `index`, its body the inlined ops then a `func.return`.
pub open spec fn fused_matches(f: IRFunction, st: FuseState, fs: Seq<IRFunction>, nodes: Seq<NodeSpec>, src: Set<u64>, res: Set<u64>) -> bool {
    let sorted = sort_by_key(st.needed, src, res);
    &&& f.name@ == "fused"@
    &&& f.arguments@.len() == sorted.len()
    &&& forall|k: int| 0 <= k < sorted.len() ==> (#[trigger] f.arguments@[k]).0@ == sorted[k].1 && f.arguments@[k].1@ == "index"@
    &&& f.operations@.map_values(|o: Operation| o@) == st.body.push(return_view())
    &&& f.grid == fused_grid(fs, nodes)
    &&& f.return_type is None
}

/// Inline node `ni` (see [`node_step`]).
fn fuse_node(
    module: &IRModule,
    spec: &ProgramSpec,
    ni: usize,
    written: &HashSet<u64>,
    read: &HashSet<u64>,
    produced: &mut HashMap<u64, String>,
    needed: &mut Vec<(u64, String)>,
    have: &mut HashSet<u64>,
    body: &mut Vec<Operation>,
) -> (r: Result<(), String>)
    requires
        ni < spec.nodes@.len(),
        written@ == tensors_upto(spec.nodes@, spec.nodes@.len() as int, true),
        read@ == tensors_upto(spec.nodes@, spec.nodes@.len() as int, false),
        forall|t: u64| old(have)@.contains(t) <==> needs_tensor(pairs_view(old(needed)@), t),
    ensures
        forall|t: u64| final(have)@.contains(t) <==> needs_tensor(pairs_view(final(needed)@), t),
        ({
            let st = FuseState {
                produced: str_map_view(old(produced)@),
                needed: pairs_view(old(needed)@),
                body: old(body)@.map_values(|o: Operation| o@),
            };
            match node_step(module.functions@, spec.nodes@, spec.sources@, spec.results@, ni as int, st) {
                Some(s2) => r is Ok && str_map_view(final(produced)@) == s2.produced && pairs_view(final(needed)@)
                    == s2.needed && final(body)@.map_values(|o: Operation| o@) == s2.body,
                None => r matches Err(e) && e@ == "no function named "@ + spec.nodes@[ni as int].func@,
            }
        }),
{
    let node = &spec.nodes[ni];
    let fi = match fn_index(&module.functions, &node.func) {
        Some(fi) => fi,
        None => {
            let mut m = String::from_str("no function named ");
            m.append(node.func.as_str());
            return Err(m);
        },
    };
    let func = &module.functions[fi];
    let ops = &func.operations;
    let analysis = analyze(func);
    proof {
        lemma_chains_in_range(ops@, ops@.len() as int, true);
        lemma_chains_in_range(ops@, ops@.len() as int, false);
        assert forall|k: int| 0 <= k < analysis.loads@.len() implies {
            let c = #[trigger] analysis.loads@[k]@;
            &&& 0 <= c.main_idx < ops@.len()
            &&& 0 <= c.tile_idx < ops@.len()
            &&& 0 <= c.view_idx < ops@.len()
        } by {
            assert(chain_views(analysis.loads@)[k] == analysis.loads@[k]@);
        }
        assert forall|k: int| 0 <= k < analysis.stores@.len() implies {
            let c = #[trigger] analysis.stores@[k]@;
            &&& 0 <= c.main_idx < ops@.len()
            &&& 0 <= c.tile_idx < ops@.len()
            &&& 0 <= c.view_idx < ops@.len()
        } by {
            assert(chain_views(analysis.stores@)[k] == analysis.stores@[k]@);
        }
    }
    let mut dropped: Vec<bool> = Vec::new();
    let mut i: usize = 0;
    while i < ops.len()
        invariant
            0 <= i <= ops@.len(),
            dropped@.len() == i,
            forall|j: int| 0 <= j < i ==> !dropped@[j],
        decreases ops@.len() - i,
    {
        dropped.push(false);
        i = i + 1;
    }
    let mut rn: Vec<(Vec<char>, String)> = Vec::new();
    forward_loads(&analysis.loads, &node.bindings, written, read, spec, produced, &mut rn, &mut dropped, Ghost(ops@.len() as int));
    forward_stores(module, &analysis.stores, &node.bindings, written, read, spec, ni, produced, &mut dropped);
    bind_args(&analysis.loads, &node.bindings, produced, &mut rn, needed, have);
    emit_ops(ops, &dropped, ni, &rn, body);
    Ok(())
}

/// Fuse `spec`'s nodes (functions of `module`) into one function.
///
/// The fused function's arguments are the pointers of the tensors that still
/// live in HBM (sources, results, and intermediates that could not be
/// forwarded), one per tensor, named `%t<id>_ptr`, sources first and results
/// last. An intermediate produced and consumed whole-tensor by every reader
/// is forwarded as an SSA value and needs no pointer. Fails when a node names
/// a function the module lacks.
pub fn fuse_program(module: &IRModule, spec: &ProgramSpec) -> (r: Result<IRFunction, String>)
    ensures
        ({
            let fs = module.functions@;
            let nodes = spec.nodes@;
            match fuse_upto(fs, nodes, spec.sources@, spec.results@, nodes.len() as int) {
                Ok(st) => r matches Ok(f) && fused_matches(f, st, fs, nodes, spec.sources@, spec.results@),
                Err(name) => r matches Err(e) && e@ == "no function named "@ + name,
            }
        }),
{
    let nodes = &spec.nodes;
    // Tensors written / read by any node.
    let mut written: HashSet<u64> = HashSet::new();
    let mut read: HashSet<u64> = HashSet::new();
    let mut i: usize = 0;
    while i < nodes.len()
        invariant
            0 <= i <= nodes@.len(),
            nodes == &spec.nodes,
            written@ == tensors_upto(nodes@, i as int, true),
            read@ == tensors_upto(nodes@, i as int, false),
        decreases nodes@.len() - i,
    {
        let bs = &nodes[i].bindings;
        let ghost w0 = written@;
        let ghost r0 = read@;
        let mut j: usize = 0;
        while j < bs.len()
            invariant
                0 <= j <= bs@.len(),
                i < nodes@.len(),
                bs == &nodes@[i as int].bindings,
                written@ == w0.union(bind_tensors(bs@, j as int, true)),
                read@ == r0.union(bind_tensors(bs@, j as int, false)),
            decreases bs@.len() - j,
        {
            if bs[j].is_output {
                written.insert(bs[j].tensor);
            } else {
                read.insert(bs[j].tensor);
            }
            assert(written@ =~= w0.union(bind_tensors(bs@, j + 1, true)));
            assert(read@ =~= r0.union(bind_tensors(bs@, j + 1, false)));
            j = j + 1;
        }
        i = i + 1;
    }
    let ghost fs = module.functions@;
    let ghost src = spec.sources@;
    let ghost res = spec.results@;
    let mut produced: HashMap<u64, String> = HashMap::new();
    let mut needed: Vec<(u64, String)> = Vec::new();
    let mut have: HashSet<u64> = HashSet::new();
    let mut body: Vec<Operation> = Vec::new();
    assert(str_map_view(produced@) =~= Map::empty());
    assert(pairs_view(needed@) =~= Seq::empty());
    assert(body@.map_values(|o: Operation| o@) =~= Seq::empty());
    let mut ni: usize = 0;
    while ni < nodes.len()
        invariant
            0 <= ni <= nodes@.len(),
            nodes == &spec.nodes,
            fs == module.functions@,
            src == spec.sources@,
            res == spec.results@,
            written@ == tensors_upto(nodes@, nodes@.len() as int, true),
            read@ == tensors_upto(nodes@, nodes@.len() as int, false),
            forall|t: u64| have@.contains(t) <==> needs_tensor(pairs_view(needed@), t),
            fuse_upto(fs, nodes@, src, res, ni as int) == Ok::<FuseState, Seq<char>>(
                FuseState {
                    produced: str_map_view(produced@),
                    needed: pairs_view(needed@),
                    body: body@.map_values(|o: Operation| o@),
                },
            ),
        decreases nodes@.len() - ni,
    {
        match fuse_node(module, spec, ni, &written, &read, &mut produced, &mut needed, &mut have, &mut body) {
            Ok(()) => {},
            Err(e) => {
                proof {
                    lemma_fuse_err_sticks(fs, nodes@, src, res, ni + 1, nodes@.len() as int);
                }
                return Err(e);
            },
        }
        ni = ni + 1;
    }
    let sorted = sort_args(&needed, spec);
    let mut arguments: Vec<(String, String)> = Vec::new();
    let mut k: usize = 0;
    while k < sorted.len()
        invariant
            0 <= k <= sorted@.len(),
            arguments@.len() == k,
            forall|a: int| 0 <= a < k ==> (#[trigger] arguments@[a]).0@ == sorted@[a].1@ && arguments@[a].1@ == "index"@,
        decreases sorted@.len() - k,
    {
        arguments.push((sorted[k].1.clone(), String::from_str("index")));
        k = k + 1;
    }
    let ghost b0 = body@;
    let ret = Operation::new(None, "func.return", &[]);
    proof {
        reveal_strlit("func.return");
        assert(ret@.operands =~= Seq::empty());
        assert(ret@.attributes =~= Seq::empty());
        assert(ret@.regions =~= Seq::empty());
    }
    body.push(ret);
    assert(body@.map_values(|o: Operation| o@) =~= b0.map_values(|o: Operation| o@).push(return_view()));
    let grid = if nodes.len() > 0 {
        match fn_index(&module.functions, &nodes[0].func) {
            Some(fi) => module.functions[fi].grid,
            None => (1, 1, 1),
        }
    } else {
        (1, 1, 1)
    };
    let f = IRFunction { name: String::from_str("fused"), arguments, operations: body, grid, return_type: None };
    proof {
        let sorted_v = sort_by_key(pairs_view(needed@), src, res);
        assert forall|a: int| 0 <= a < sorted_v.len() implies (#[trigger] f.arguments@[a]).0@ == sorted_v[a].1 by {
            assert(pairs_view(sorted@)[a] == (sorted@[a].0, sorted@[a].1@));
        }
    }
    Ok(f)
}

// ---------------------------------------------------------------------------
// Laws
// ---------------------------------------------------------------------------

/// Keys strictly increase along `s` (so no tensor occurs twice).
pub open spec fn strictly_sorted(s: Seq<(u64, Seq<char>)>, src: Set<u64>, res: Set<u64>) -> bool {
    forall|i: int, j: int|
        0 <= i < j < s.len() ==> key_le(src, res, (#[trigger] s[i]).0, (#[trigger] s[j]).0) && s[i].0 != s[j].0
}

/// No tensor occurs twice in `s`, and each entry carries its canonical name.
pub open spec fn well_named(s: Seq<(u64, Seq<char>)>) -> bool {
    &&& forall|i: int, j: int| 0 <= i < j < s.len() ==> (#[trigger] s[i]).0 != (#[trigger] s[j]).0
    &&& forall|k: int| 0 <= k < s.len() ==> (#[trigger] s[k]).1 == ptr_name(s[k].0)
}

proof fn lemma_binds_pass_well_named(
    bs: Seq<Binding>,
    n: int,
    loads: Seq<ChainSpec>,
    produced: Map<u64, Seq<char>>,
    rn: Map<Seq<char>, Seq<char>>,
    needed: Seq<(u64, Seq<char>)>,
)
    requires
        n <= bs.len(),
        well_named(needed),
    ensures
        well_named(binds_pass(bs, n, loads, produced, rn, needed).1),
    decreases n,
{
    if n > 0 {
        lemma_binds_pass_well_named(bs, n - 1, loads, produced, rn, needed);
        let prev = binds_pass(bs, n - 1, loads, produced, rn, needed).1;
        let b = bs[n - 1];
        if !needs_tensor(prev, b.tensor) {
            let cur = prev.push((b.tensor, ptr_name(b.tensor)));
            assert forall|i: int, j: int| 0 <= i < j < cur.len() implies (#[trigger] cur[i]).0 != (#[trigger] cur[j]).0 by {
                if j == prev.len() {
                    assert(prev[i] == cur[i]);
                    if cur[i].0 == b.tensor {
                        assert(needs_tensor(prev, b.tensor));
                    }
                } else {
                    assert(prev[i] == cur[i] && prev[j] == cur[j]);
                }
            }
            assert forall|k: int| 0 <= k < cur.len() implies (#[trigger] cur[k]).1 == ptr_name(cur[k].0) by {
                if k < prev.len() {
                    assert(prev[k] == cur[k]);
                }
            }
        }
    }
}

proof fn lemma_fuse_well_named(fs: Seq<IRFunction>, nodes: Seq<NodeSpec>, src: Set<u64>, res: Set<u64>, n: int)
    requires
        n <= nodes.len(),
        fuse_upto(fs, nodes, src, res, n) is Ok,
    ensures
        well_named(fuse_upto(fs, nodes, src, res, n)->Ok_0.needed),
    decreases n,
{
    if n > 0 {
        lemma_fuse_well_named(fs, nodes, src, res, n - 1);
        let st = fuse_upto(fs, nodes, src, res, n - 1)->Ok_0;
        let fi = first_fn(fs, nodes[n - 1].func@, 0)->0;
        let ops = fs[fi].operations@;
        let loads = chains(ops, true);
        let stores = chains(ops, false);
        let bs = nodes[n - 1].bindings@;
        let inter = intermediates(nodes, src, res);
        let rw = Set::new(|t: u64| all_read_whole(fs, nodes, t));
        let lp = loads_pass(loads, loads.len() as int, bs, inter, st.produced);
        let sp = stores_pass(stores, stores.len() as int, bs, inter, rw, (n - 1) as nat, lp.1, st.produced);
        lemma_binds_pass_well_named(bs, bs.len() as int, loads, sp.1, lp.0, st.needed);
    }
}

proof fn lemma_key_total(src: Set<u64>, res: Set<u64>, a: u64, b: u64)
    ensures
        key_le(src, res, a, b) || key_le(src, res, b, a),
        key_le(src, res, a, b) && key_le(src, res, b, a) ==> a == b,
{
}

proof fn lemma_insert_sorted(s: Seq<(u64, Seq<char>)>, x: (u64, Seq<char>), src: Set<u64>, res: Set<u64>)
    requires
        strictly_sorted(s, src, res),
        forall|k: int| 0 <= k < s.len() ==> (#[trigger] s[k]).0 != x.0,
    ensures
        strictly_sorted(insert_by_key(s, x, src, res), src, res),
        insert_by_key(s, x, src, res).len() == s.len() + 1,
        forall|y: (u64, Seq<char>)| #[trigger] insert_by_key(s, x, src, res).contains(y) <==> (s.contains(y) || y == x),
    decreases s.len(),
{
    let ins = insert_by_key(s, x, src, res);
    if s.len() == 0 {
        assert forall|y: (u64, Seq<char>)| #[trigger] ins.contains(y) <==> (s.contains(y) || y == x) by {
            if ins.contains(y) {
                assert(ins[0] == x);
            }
            if y == x {
                assert(ins[0] == y);
            }
        }
    } else if !key_le(src, res, s[0].0, x.0) {
        lemma_key_total(src, res, s[0].0, x.0);
        assert forall|i: int, j: int| 0 <= i < j < ins.len() implies key_le(src, res, (#[trigger] ins[i]).0, (#[trigger] ins[j]).0)
            && ins[i].0 != ins[j].0 by {
            if i == 0 {
                assert(ins[j] == s[j - 1]);
                if j - 1 > 0 {
                    assert(key_le(src, res, s[0].0, s[j - 1].0));
                }
            } else {
                assert(ins[i] == s[i - 1] && ins[j] == s[j - 1]);
            }
        }
        assert forall|y: (u64, Seq<char>)| #[trigger] ins.contains(y) <==> (s.contains(y) || y == x) by {
            if ins.contains(y) {
                let k = choose|k: int| 0 <= k < ins.len() && ins[k] == y;
                if k > 0 {
                    assert(s[k - 1] == y);
                }
            }
            if s.contains(y) {
                let k = choose|k: int| 0 <= k < s.len() && s[k] == y;
                assert(ins[k + 1] == y);
            }
            if y == x {
                assert(ins[0] == y);
            }
        }
    } else {
        let rest = s.drop_first();
        assert forall|i: int, j: int| 0 <= i < j < rest.len() implies key_le(src, res, (#[trigger] rest[i]).0, (#[trigger] rest[j]).0)
            && rest[i].0 != rest[j].0 by {
            assert(rest[i] == s[i + 1] && rest[j] == s[j + 1]);
        }
        assert forall|k: int| 0 <= k < rest.len() implies (#[trigger] rest[k]).0 != x.0 by {
            assert(rest[k] == s[k + 1]);
        }
        lemma_insert_sorted(rest, x, src, res);
        let tail = insert_by_key(rest, x, src, res);
        assert(ins == seq![s[0]] + tail);
        assert forall|i: int, j: int| 0 <= i < j < ins.len() implies key_le(src, res, (#[trigger] ins[i]).0, (#[trigger] ins[j]).0)
            && ins[i].0 != ins[j].0 by {
            if i == 0 {
                let y = ins[j];
                assert(tail[j - 1] == y);
                assert(tail.contains(y));
                if y == x {
                    assert(s[0].0 != x.0);
                } else {
                    assert(rest.contains(y));
                    let k = choose|k: int| 0 <= k < rest.len() && rest[k] == y;
                    assert(s[k + 1] == y);
                }
            } else {
                assert(ins[i] == tail[i - 1] && ins[j] == tail[j - 1]);
            }
        }
        assert forall|y: (u64, Seq<char>)| #[trigger] ins.contains(y) <==> (s.contains(y) || y == x) by {
            if ins.contains(y) {
                let k = choose|k: int| 0 <= k < ins.len() && ins[k] == y;
                if k == 0 {
                    assert(s[0] == y);
                } else {
                    assert(tail[k - 1] == y);
                    assert(tail.contains(y));
                    if rest.contains(y) {
                        let m = choose|m: int| 0 <= m < rest.len() && rest[m] == y;
                        assert(s[m + 1] == y);
                    }
                }
            }
            if s.contains(y) {
                let k = choose|k: int| 0 <= k < s.len() && s[k] == y;
                if k == 0 {
                    assert(ins[0] == y);
                } else {
                    assert(rest[k - 1] == y);
                    assert(rest.contains(y));
                    assert(tail.contains(y));
                    let m = choose|m: int| 0 <= m < tail.len() && tail[m] == y;
                    assert(ins[m + 1] == y);
                }
            }
            if y == x {
                assert(tail.contains(y));
                let m = choose|m: int| 0 <= m < tail.len() && tail[m] == y;
                assert(ins[m + 1] == y);
            }
        }
    }
}

proof fn lemma_sort_sorted(s: Seq<(u64, Seq<char>)>, src: Set<u64>, res: Set<u64>)
    requires
        forall|i: int, j: int| 0 <= i < j < s.len() ==> (#[trigger] s[i]).0 != (#[trigger] s[j]).0,
    ensures
        strictly_sorted(sort_by_key(s, src, res), src, res),
        sort_by_key(s, src, res).len() == s.len(),
        forall|y: (u64, Seq<char>)| #[trigger] sort_by_key(s, src, res).contains(y) <==> s.contains(y),
    decreases s.len(),
{
    if s.len() > 0 {
        let init = s.drop_last();
        let x = s.last();
        assert forall|i: int, j: int| 0 <= i < j < init.len() implies (#[trigger] init[i]).0 != (#[trigger] init[j]).0 by {
            assert(init[i] == s[i] && init[j] == s[j]);
        }
        lemma_sort_sorted(init, src, res);
        let so = sort_by_key(init, src, res);
        assert forall|k: int| 0 <= k < so.len() implies (#[trigger] so[k]).0 != x.0 by {
            assert(so.contains(so[k]));
            assert(init.contains(so[k]));
            let m = choose|m: int| 0 <= m < init.len() && init[m] == so[k];
            assert(s[m] == so[k]);
            assert(s[s.len() - 1] == x);
        }
        lemma_insert_sorted(so, x, src, res);
        assert forall|y: (u64, Seq<char>)| #[trigger] sort_by_key(s, src, res).contains(y) <==> s.contains(y) by {
            if s.contains(y) {
                let k = choose|k: int| 0 <= k < s.len() && s[k] == y;
                if k < s.len() - 1 {
                    assert(init[k] == y);
                    assert(init.contains(y));
                }
            }
            if init.contains(y) {
                let k = choose|k: int| 0 <= k < init.len() && init[k] == y;
                assert(s[k] == y);
            }
        }
    }
}

/// Law of the fused interface: the fused function has one pointer argument per
/// tensor, each named `%t<id>_ptr` after its tensor, exactly the pointers the
/// nodes still need, ordered sources first, then intermediates kept in HBM,
/// then results, by tensor id within each class.
pub proof fn lemma_fused_arguments(fs: Seq<IRFunction>, nodes: Seq<NodeSpec>, src: Set<u64>, res: Set<u64>)
    requires
        fuse_upto(fs, nodes, src, res, nodes.len() as int) is Ok,
    ensures
        ({
            let needed = fuse_upto(fs, nodes, src, res, nodes.len() as int)->Ok_0.needed;
            let sorted = sort_by_key(needed, src, res);
            &&& sorted.len() == needed.len()
            &&& forall|y: (u64, Seq<char>)| #[trigger] sorted.contains(y) <==> needed.contains(y)
            &&& forall|k: int| 0 <= k < sorted.len() ==> (#[trigger] sorted[k]).1 == ptr_name(sorted[k].0)
            &&& strictly_sorted(sorted, src, res)
        }),
{
    lemma_fuse_well_named(fs, nodes, src, res, nodes.len() as int);
    let needed = fuse_upto(fs, nodes, src, res, nodes.len() as int)->Ok_0.needed;
    lemma_sort_sorted(needed, src, res);
    let sorted = sort_by_key(needed, src, res);
    assert forall|k: int| 0 <= k < sorted.len() implies (#[trigger] sorted[k]).1 == ptr_name(sorted[k].0) by {
        assert(sorted.contains(sorted[k]));
        let m = choose|m: int| 0 <= m < needed.len() && needed[m] == sorted[k];
        assert(needed[m].1 == ptr_name(needed[m].0));
    }
}

} // verus!
