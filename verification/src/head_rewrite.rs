//! Head-parallel attention re-roll.
//!
//! A cached prefill attention kernel lowered head-parallel runs on a grid
//! `[H, 1]` whose per-core body is `m` manually unrolled query-row blocks,
//! each a two-block online softmax: a context block over the KV cache (masked
//! by a per-head context mask) and a causal diagonal block over the current
//! segment, row `r` reading exactly `r + 1` KV rows. This pass recognises that
//! idiom from structural invariants only and rewrites the `m` blocks into one
//! pass of whole-`[m, *]` tensor ops with the same grid, arguments and
//! per-head column arithmetic. Recognition is fail-safe: any deviation leaves
//! the function as it is.

use vstd::prelude::*;
use crate::env::FloatArith;
use crate::ir::{Attr, IRFunction, IRModule, Operation, attr_lookup, strings_view};
use crate::text::{i64_to_decimal, int_decimal, str_eq};

verus! {

/// The configuration recovered from a recognised head-parallel attention
/// function: the pointer arguments of its seven views, the shapes, the
/// grouped-query divisor and head-column stride, the score scale and the
/// `-inf` mask constant (each as the literal it was written with and as its
/// `f32` bit pattern), and the storage dtype.
pub struct HeadAttnIsland {
    /// Q pointer argument, view `[m, H*d]`.
    pub q_arg: String,
    /// Output pointer argument, view `[m, H*d]`.
    pub o_arg: String,
    /// Per-head context mask pointer argument, view `[1, cap]`.
    pub mask_arg: String,
    /// Context K pointer argument, view `[cap, kv_cols]`.
    pub kc_arg: String,
    /// Diagonal (current-segment) K pointer argument, view `[m, kv_cols]`.
    pub kd_arg: String,
    /// Context V pointer argument, view `[cap, kv_cols]`.
    pub vc_arg: String,
    /// Diagonal V pointer argument, view `[m, kv_cols]`.
    pub vd_arg: String,
    /// Q / output view width `H*d`.
    pub q_cols: i64,
    /// KV view width.
    pub kv_cols: i64,
    /// Query rows (the number of stores).
    pub m: i64,
    /// Context KV length.
    pub cap: i64,
    /// Head dimension.
    pub d: i64,
    /// Grouped-query divisor of the head id.
    pub gqac: i64,
    /// Per-head column stride.
    pub hdc: i64,
    /// Head count (grid width).
    pub h: i64,
    /// Score scale literal.
    pub scale: String,
    /// Score scale as an `f32` bit pattern.
    pub scale_bits: u32,
    /// Mask constant literal.
    pub ninf: String,
    /// Mask constant as an `f32` bit pattern.
    pub ninf_bits: u32,
    /// Storage dtype name (`"f16"`, ...).
    pub dtype: String,
}

/// Bytes per element of a storage dtype name (2 for `f16` / `bf16` and
/// anything unknown).
pub open spec fn dtype_width(dtype: Seq<char>) -> int {
    if dtype == "f32"@ || dtype == "i32"@ {
        4
    } else if dtype == "f64"@ || dtype == "i64"@ {
        8
    } else if dtype == "i1"@ {
        1
    } else {
        2
    }
}

/// `a * b`, saturating at `usize::MAX`.
pub open spec fn sat_mul(a: int, b: int) -> int {
    if a * b > usize::MAX {
        usize::MAX as int
    } else {
        a * b
    }
}

fn saturating_mul(a: usize, b: usize) -> (r: usize)
    ensures
        r == sat_mul(a as int, b as int),
{
    match a.checked_mul(b) {
        Some(v) => v,
        None => usize::MAX,
    }
}

impl HeadAttnIsland {
    /// Bytes of the re-rolled `[m, cap]` context-scores tile in the storage
    /// dtype (saturating).
    pub fn scores_bytes(&self) -> (n: usize)
        ensures
            n == sat_mul(sat_mul(self.m as usize as int, self.cap as usize as int), dtype_width(self.dtype@)),
    {
        proof {
            reveal_strlit("f32");
            reveal_strlit("i32");
            reveal_strlit("f64");
            reveal_strlit("i64");
            reveal_strlit("i1");
        }
        let t = self.dtype.as_str();
        let bytes: usize = if str_eq(t, "f32") || str_eq(t, "i32") {
            4
        } else if str_eq(t, "f64") || str_eq(t, "i64") {
            8
        } else if str_eq(t, "i1") {
            1
        } else {
            2
        };
        saturating_mul(saturating_mul(self.m as usize, self.cap as usize), bytes)
    }
}

// ---------------------------------------------------------------------------
// Recognition
// ---------------------------------------------------------------------------

/// A top-level structured-control-flow op: a re-roll never starts from one.
pub open spec fn is_control_flow(t: Seq<char>) -> bool {
    t == "scf.for"@ || t == "scf.if"@ || t == "scf.while"@ || t == "scf.parallel"@ || t == "scf.forall"@
}

/// No op of `ops` is structured control flow.
pub open spec fn no_control_flow(ops: Seq<Operation>) -> bool {
    forall|i: int| 0 <= i < ops.len() ==> !is_control_flow(#[trigger] ops[i].op_type@)
}

/// Number of ops of type `t` in `ops`.
pub open spec fn count_type(ops: Seq<Operation>, t: Seq<char>) -> nat
    decreases ops.len(),
{
    if ops.len() == 0 {
        0
    } else {
        count_type(ops.drop_last(), t) + (if ops.last().op_type@ == t {
            1nat
        } else {
            0nat
        })
    }
}

/// Some op of `ops` has type `t`.
pub open spec fn has_type(ops: Seq<Operation>, t: Seq<char>) -> bool {
    exists|i: int| 0 <= i < ops.len() && #[trigger] ops[i].op_type@ == t
}

/// The shape relations every recognised island satisfies.
pub open spec fn island_shapes_ok(isl: HeadAttnIsland) -> bool {
    &&& isl.m > 0
    &&& isl.d > 0
    &&& isl.q_cols == isl.h * isl.d
    &&& isl.hdc == isl.d
    &&& isl.cap > 0
    &&& isl.kv_cols % isl.d == 0
    &&& isl.gqac >= 1
}

fn is_type(op: &Operation, t: &str) -> (b: bool)
    ensures
        b == (op.op_type@ == t@),
{
    str_eq(op.op_type.as_str(), t)
}

fn control_flow(op: &Operation) -> (b: bool)
    ensures
        b == is_control_flow(op.op_type@),
{
    is_type(op, "scf.for") || is_type(op, "scf.if") || is_type(op, "scf.while") || is_type(op, "scf.parallel")
        || is_type(op, "scf.forall")
}

/// Position of the last of `keys` equal to `key`.
pub open spec fn last_pos(keys: Seq<Seq<char>>, key: Seq<char>) -> Option<int>
    decreases keys.len(),
{
    if keys.len() == 0 {
        None
    } else if keys.last() == key {
        Some(keys.len() - 1)
    } else {
        last_pos(keys.drop_last(), key)
    }
}

/// The names of a table's entries.
pub open spec fn table_keys<T>(table: Seq<(String, T)>) -> Seq<Seq<char>> {
    table.map_values(|p: (String, T)| p.0@)
}

/// Position of the last entry of `table` named `key` (a later entry
/// replaces an earlier one, as a map insert does).
fn last_named<T>(table: &Vec<(String, T)>, key: &str) -> (r: Option<usize>)
    ensures
        r matches Some(i) ==> i < table@.len() && table@[i as int].0@ == key@,
        r matches Some(i) ==> last_pos(table_keys(table@), key@) == Some(i as int),
        r is None ==> last_pos(table_keys(table@), key@) is None,
{
    let ghost ks = table_keys(table@);
    let mut i = table.len();
    assert(ks.subrange(0, ks.len() as int) =~= ks);
    while i > 0
        invariant
            i <= table@.len(),
            ks == table_keys(table@),
            last_pos(ks, key@) == last_pos(ks.subrange(0, i as int), key@),
        decreases i,
    {
        assert(ks.subrange(0, i as int).drop_last() =~= ks.subrange(0, i - 1));
        if str_eq(table[i - 1].0.as_str(), key) {
            return Some(i - 1);
        }
        i = i - 1;
    }
    None
}

/// A `ktdp.construct_memory_view`: pointer argument, view shape, dtype.
struct ViewInfo {
    arg: String,
    shape: Vec<i64>,
    dtype: String,
}

/// A `ktdp.construct_access_tile`: the view it reads, its shape, and its
/// index operands.
struct TileInfo {
    view: String,
    shape: Vec<i64>,
    indices: Vec<String>,
}

/// What one `ktdp.load` reads: pointer argument, view shape, access-tile
/// shape and dtype.
struct LoadChain {
    arg: String,
    view_shape: Vec<i64>,
    tile_shape: Vec<i64>,
    dtype: String,
}

/// The tables recognition walks: views, access tiles and loads by result
/// name, integer constants, and each result name's defining op (by index).
struct Tables {
    views: Vec<(String, ViewInfo)>,
    tiles: Vec<(String, TileInfo)>,
    loads: Vec<(String, LoadChain)>,
    int_const: Vec<(String, i64)>,
    def: Vec<(String, usize)>,
}

impl Tables {
    /// Every recorded defining op exists.
    spec fn wf(&self, n: int) -> bool {
        forall|i: int| 0 <= i < self.def@.len() ==> #[trigger] self.def@[i].1 < n
    }
}

fn copy_i64s(v: &Vec<i64>) -> (r: Vec<i64>)
    ensures
        r@ == v@,
{
    let mut r: Vec<i64> = Vec::new();
    let mut i: usize = 0;
    while i < v.len()
        invariant
            0 <= i <= v@.len(),
            r@ == v@.subrange(0, i as int),
        decreases v@.len() - i,
    {
        r.push(v[i]);
        i = i + 1;
    }
    assert(v@.subrange(0, v@.len() as int) =~= v@);
    r
}

/// The integer list attribute `shape`, or nothing.
pub open spec fn shape_attr_spec(op: Operation) -> Seq<i64> {
    match attr_lookup(op.attributes@, "shape"@) {
        Some(Attr::IntList(v)) => v@,
        _ => Seq::empty(),
    }
}

/// The string attribute `dtype`, or `f16`.
pub open spec fn dtype_attr_spec(op: Operation) -> Seq<char> {
    match attr_lookup(op.attributes@, "dtype"@) {
        Some(Attr::Str(s)) => s@,
        _ => "f16"@,
    }
}

fn shape_attr(op: &Operation) -> (r: Vec<i64>)
    ensures
        r@ == shape_attr_spec(*op),
{
    match op.get_attr("shape") {
        Some(Attr::IntList(v)) => copy_i64s(v),
        _ => Vec::new(),
    }
}

fn dtype_attr(op: &Operation) -> (r: String)
    ensures
        r@ == dtype_attr_spec(*op),
{
    match op.get_attr("dtype") {
        Some(Attr::Str(s)) => s.clone(),
        _ => String::from_str("f16"),
    }
}

/// A view entry: result name, pointer argument, shape, dtype.
pub type ViewEntry = (Seq<char>, Seq<char>, Seq<i64>, Seq<char>);

/// A tile entry: result name, view, shape, index operands.
pub type TileEntry = (Seq<char>, Seq<char>, Seq<i64>, Seq<Seq<char>>);

/// A load entry: result name, pointer argument, view shape, tile shape, dtype.
pub type LoadEntry = (Seq<char>, Seq<char>, Seq<i64>, Seq<i64>, Seq<char>);

spec fn views_view(v: Seq<(String, ViewInfo)>) -> Seq<ViewEntry> {
    v.map_values(|p: (String, ViewInfo)| (p.0@, p.1.arg@, p.1.shape@, p.1.dtype@))
}

spec fn tiles_view(v: Seq<(String, TileInfo)>) -> Seq<TileEntry> {
    v.map_values(|p: (String, TileInfo)| (p.0@, p.1.view@, p.1.shape@, strings_view(p.1.indices@)))
}

spec fn loads_view(v: Seq<(String, LoadChain)>) -> Seq<LoadEntry> {
    v.map_values(|p: (String, LoadChain)| (p.0@, p.1.arg@, p.1.view_shape@, p.1.tile_shape@, p.1.dtype@))
}

spec fn pairs_view<T>(v: Seq<(String, T)>) -> Seq<(Seq<char>, T)> {
    v.map_values(|p: (String, T)| (p.0@, p.1))
}

/// The op at `k` is of type `ty`, names a result and has an operand.
pub open spec fn named_with_operand(op: Operation, ty: Seq<char>) -> bool {
    op.op_type@ == ty && op.result is Some && op.operands@.len() > 0
}

/// Memory views among the first `k` ops.
pub open spec fn view_entries(ops: Seq<Operation>, k: int) -> Seq<ViewEntry>
    decreases k,
{
    if k <= 0 {
        Seq::empty()
    } else {
        let prev = view_entries(ops, k - 1);
        let op = ops[k - 1];
        if named_with_operand(op, "ktdp.construct_memory_view"@) {
            prev.push((op.result->0@, op.operands@[0]@, shape_attr_spec(op), dtype_attr_spec(op)))
        } else {
            prev
        }
    }
}

/// Access tiles among the first `k` ops.
pub open spec fn tile_entries(ops: Seq<Operation>, k: int) -> Seq<TileEntry>
    decreases k,
{
    if k <= 0 {
        Seq::empty()
    } else {
        let prev = tile_entries(ops, k - 1);
        let op = ops[k - 1];
        if named_with_operand(op, "ktdp.construct_access_tile"@) {
            let ops_v = strings_view(op.operands@);
            prev.push((op.result->0@, ops_v[0], shape_attr_spec(op), ops_v.subrange(1, ops_v.len() as int)))
        } else {
            prev
        }
    }
}

/// Names of entries.
pub open spec fn entry_keys<X>(s: Seq<(Seq<char>, X)>) -> Seq<Seq<char>> {
    s.map_values(|e: (Seq<char>, X)| e.0)
}

pub open spec fn view_keys(s: Seq<ViewEntry>) -> Seq<Seq<char>> {
    s.map_values(|e: ViewEntry| e.0)
}

pub open spec fn tile_keys(s: Seq<TileEntry>) -> Seq<Seq<char>> {
    s.map_values(|e: TileEntry| e.0)
}

/// Loads among the first `k` ops whose tile and view were recorded
/// before them.
pub open spec fn load_entries(ops: Seq<Operation>, k: int) -> Seq<LoadEntry>
    decreases k,
{
    if k <= 0 {
        Seq::empty()
    } else {
        let prev = load_entries(ops, k - 1);
        let op = ops[k - 1];
        let tiles = tile_entries(ops, k - 1);
        let views = view_entries(ops, k - 1);
        if named_with_operand(op, "ktdp.load"@) {
            match last_pos(tile_keys(tiles), op.operands@[0]@) {
                Some(ti) => match last_pos(view_keys(views), tiles[ti].1) {
                    Some(vi) => prev.push((op.result->0@, views[vi].1, views[vi].2, tiles[ti].2, views[vi].3)),
                    None => prev,
                },
                None => prev,
            }
        } else {
            prev
        }
    }
}

/// Integer constants among the first `k` ops.
spec fn const_entries(ops: Seq<Operation>, k: int) -> Seq<(Seq<char>, i64)>
    decreases k,
{
    if k <= 0 {
        Seq::empty()
    } else {
        let prev = const_entries(ops, k - 1);
        let op = ops[k - 1];
        if op.op_type@ == "arith.constant"@ && op.result is Some {
            match attr_lookup(op.attributes@, "value"@) {
                Some(Attr::Int(v)) => prev.push((op.result->0@, v)),
                _ => prev,
            }
        } else {
            prev
        }
    }
}

/// Every named result among the first `k` ops, with its op's index.
pub open spec fn def_entries(ops: Seq<Operation>, k: int) -> Seq<(Seq<char>, usize)>
    decreases k,
{
    if k <= 0 {
        Seq::empty()
    } else {
        let prev = def_entries(ops, k - 1);
        match ops[k - 1].result {
            Some(r) => prev.push((r@, (k - 1) as usize)),
            None => prev,
        }
    }
}

proof fn lemma_table_types_distinct()
    ensures
        "ktdp.construct_memory_view"@ != "ktdp.construct_access_tile"@,
        "ktdp.construct_memory_view"@ != "ktdp.load"@,
        "ktdp.construct_memory_view"@ != "arith.constant"@,
        "ktdp.construct_access_tile"@ != "ktdp.load"@,
        "ktdp.construct_access_tile"@ != "arith.constant"@,
        "ktdp.load"@ != "arith.constant"@,
{
    reveal_strlit("ktdp.construct_memory_view");
    reveal_strlit("ktdp.construct_access_tile");
    reveal_strlit("ktdp.load");
    reveal_strlit("arith.constant");
    assert("ktdp.construct_memory_view"@[15] != "ktdp.construct_access_tile"@[15]);
    assert("ktdp.construct_memory_view"@.len() == 26 && "ktdp.construct_access_tile"@.len() == 26);
    assert("ktdp.load"@.len() == 9 && "arith.constant"@.len() == 14);
}

fn build_tables(ops: &Vec<Operation>) -> (t: Tables)
    ensures
        t.wf(ops@.len() as int),
        views_view(t.views@) == view_entries(ops@, ops@.len() as int),
        tiles_view(t.tiles@) == tile_entries(ops@, ops@.len() as int),
        loads_view(t.loads@) == load_entries(ops@, ops@.len() as int),
        pairs_view(t.int_const@) == const_entries(ops@, ops@.len() as int),
        pairs_view(t.def@) == def_entries(ops@, ops@.len() as int),
{
    let mut t = Tables {
        views: Vec::new(),
        tiles: Vec::new(),
        loads: Vec::new(),
        int_const: Vec::new(),
        def: Vec::new(),
    };
    assert(views_view(t.views@) =~= Seq::<ViewEntry>::empty());
    assert(tiles_view(t.tiles@) =~= Seq::<TileEntry>::empty());
    assert(loads_view(t.loads@) =~= Seq::<LoadEntry>::empty());
    assert(pairs_view(t.int_const@) =~= Seq::<(Seq<char>, i64)>::empty());
    assert(pairs_view(t.def@) =~= Seq::<(Seq<char>, usize)>::empty());
    let mut k: usize = 0;
    while k < ops.len()
        invariant
            0 <= k <= ops@.len(),
            t.wf(ops@.len() as int),
            views_view(t.views@) == view_entries(ops@, k as int),
            tiles_view(t.tiles@) == tile_entries(ops@, k as int),
            loads_view(t.loads@) == load_entries(ops@, k as int),
            pairs_view(t.int_const@) == const_entries(ops@, k as int),
            pairs_view(t.def@) == def_entries(ops@, k as int),
        decreases ops@.len() - k,
    {
        let op = &ops[k];
        proof {
            lemma_table_types_distinct();
        }
        let ghost v0 = t.views@;
        let ghost ti0 = t.tiles@;
        let ghost l0 = t.loads@;
        let ghost c0 = t.int_const@;
        let ghost d0 = t.def@;
        if is_type(op, "ktdp.construct_memory_view") {
            if let Some(res) = &op.result {
                if op.operands.len() > 0 {
                    let e = (res.clone(), ViewInfo { arg: op.operands[0].clone(), shape: shape_attr(op), dtype: dtype_attr(op) });
                    t.views.push(e);
                    assert(views_view(t.views@) =~= views_view(v0).push((res@, op.operands@[0]@, shape_attr_spec(*op), dtype_attr_spec(*op))));
                }
            }
        } else if is_type(op, "ktdp.construct_access_tile") {
            if let Some(res) = &op.result {
                if op.operands.len() > 0 {
                    let mut indices: Vec<String> = Vec::new();
                    let mut j: usize = 1;
                    while j < op.operands.len()
                        invariant
                            1 <= j <= op.operands@.len(),
                            strings_view(indices@) =~= strings_view(op.operands@).subrange(1, j as int),
                        decreases op.operands@.len() - j,
                    {
                        let ghost before = indices@;
                        indices.push(op.operands[j].clone());
                        assert(strings_view(indices@) =~= strings_view(before).push(op.operands@[j as int]@));
                        j = j + 1;
                    }
                    let ghost iv = strings_view(indices@);
                    t.tiles.push(
                        (res.clone(), TileInfo { view: op.operands[0].clone(), shape: shape_attr(op), indices }),
                    );
                    assert(tiles_view(t.tiles@) =~= tiles_view(ti0).push((res@, strings_view(op.operands@)[0], shape_attr_spec(*op), iv)));
                }
            }
        } else if is_type(op, "ktdp.load") {
            if let Some(res) = &op.result {
                if op.operands.len() > 0 {
                    assert(table_keys(t.tiles@) =~= tile_keys(tiles_view(t.tiles@)));
                    if let Some(ti) = last_named(&t.tiles, op.operands[0].as_str()) {
                        assert(table_keys(t.views@) =~= view_keys(views_view(t.views@)));
                        if let Some(vi) = last_named(&t.views, t.tiles[ti].1.view.as_str()) {
                            let chain = LoadChain {
                                arg: t.views[vi].1.arg.clone(),
                                view_shape: copy_i64s(&t.views[vi].1.shape),
                                tile_shape: copy_i64s(&t.tiles[ti].1.shape),
                                dtype: t.views[vi].1.dtype.clone(),
                            };
                            let ghost e = (res@, chain.arg@, chain.view_shape@, chain.tile_shape@, chain.dtype@);
                            t.loads.push((res.clone(), chain));
                            assert(loads_view(t.loads@) =~= loads_view(l0).push(e));
                        }
                    }
                }
            }
        } else if is_type(op, "arith.constant") {
            if let Some(res) = &op.result {
                if let Some(Attr::Int(v)) = op.get_attr("value") {
                    t.int_const.push((res.clone(), *v));
                    assert(pairs_view(t.int_const@) =~= pairs_view(c0).push((res@, *v)));
                }
            }
        }
        if let Some(res) = &op.result {
            t.def.push((res.clone(), k));
            assert(pairs_view(t.def@) =~= pairs_view(d0).push((res@, k)));
        }
        k = k + 1;
    }
    t
}

/// Index of the op that last defined `name`, by the tables.
spec fn def_spec(t: Tables, name: Seq<char>) -> Option<usize> {
    match last_pos(table_keys(t.def@), name) {
        Some(i) => Some(t.def@[i].1),
        None => None,
    }
}

/// The integer constant last bound to `name`, by the tables.
spec fn const_spec(t: Tables, name: Seq<char>) -> Option<i64> {
    match last_pos(table_keys(t.int_const@), name) {
        Some(i) => Some(t.int_const@[i].1),
        None => None,
    }
}

/// The op defining `name`, by index.
fn def_of(t: &Tables, n: usize, name: &str) -> (r: Option<usize>)
    requires
        t.wf(n as int),
    ensures
        r matches Some(i) ==> i < n,
        r == def_spec(*t, name@),
{
    match last_named(&t.def, name) {
        Some(i) => Some(t.def[i].1),
        None => None,
    }
}

fn const_of(t: &Tables, name: &str) -> (r: Option<i64>)
    ensures
        r == const_spec(*t, name@),
{
    match last_named(&t.int_const, name) {
        Some(i) => Some(t.int_const[i].1),
        None => None,
    }
}

/// The op the tables say defines `name`, when it is of type `ty` with at
/// least `n` operands.
spec fn def_op(t: Tables, ops: Seq<Operation>, name: Seq<char>, ty: Seq<char>, n: int) -> Option<Operation> {
    match def_spec(t, name) {
        Some(i) => if ops[i as int].op_type@ == ty && ops[i as int].operands@.len() >= n {
            Some(ops[i as int])
        } else {
            None
        },
        None => None,
    }
}

/// `%w = arith.divf %e, %b`: `(%e, %b)`.
spec fn divf_spec(w: Seq<char>, ops: Seq<Operation>, t: Tables) -> Option<(Seq<char>, Seq<char>)> {
    match def_op(t, ops, w, "arith.divf"@, 2) {
        Some(d) => Some((d.operands@[0]@, d.operands@[1]@)),
        None => None,
    }
}

/// `%e = math.exp(arith.subf %x, ..)`: `%x`.
spec fn exp_sub_spec(e: Seq<char>, ops: Seq<Operation>, t: Tables) -> Option<Seq<char>> {
    match def_op(t, ops, e, "math.exp"@, 1) {
        Some(ex) => match def_op(t, ops, ex.operands@[0]@, "arith.subf"@, 1) {
            Some(sub) => Some(sub.operands@[0]@),
            None => None,
        },
        None => None,
    }
}

/// `%s = arith.mulf %raw, tensor.splat(arith.constant)`: `%raw` and the
/// constant's `value` attribute.
spec fn scale_spec(s: Seq<char>, ops: Seq<Operation>, t: Tables) -> Option<(Seq<char>, Option<Attr>)> {
    match def_op(t, ops, s, "arith.mulf"@, 2) {
        Some(mul) => match def_op(t, ops, mul.operands@[1]@, "tensor.splat"@, 1) {
            Some(splat) => match def_op(t, ops, splat.operands@[0]@, "arith.constant"@, 0) {
                Some(c) => Some((mul.operands@[0]@, attr_lookup(c.attributes@, "value"@))),
                None => None,
            },
            None => None,
        },
        None => None,
    }
}

/// `%raw = linalg.matmul %q, linalg.transpose(%k)`: `%q` and the load
/// entry of `%k`.
spec fn qk_spec(raw: Seq<char>, ops: Seq<Operation>, t: Tables) -> Option<(Seq<char>, int)> {
    match def_op(t, ops, raw, "linalg.matmul"@, 2) {
        Some(mm) => match def_op(t, ops, mm.operands@[1]@, "linalg.transpose"@, 1) {
            Some(kt) => match last_pos(table_keys(t.loads@), kt.operands@[0]@) {
                Some(li) => Some((mm.operands@[0]@, li)),
                None => None,
            },
            None => None,
        },
        None => None,
    }
}

/// `%w = arith.divf %e, %b`: the operand names `(%e, %b)`.
fn trace_divf(w: &str, ops: &Vec<Operation>, t: &Tables) -> (r: Option<(String, String)>)
    requires
        t.wf(ops@.len() as int),
    ensures
        r matches Some(p) ==> divf_spec(w@, ops@, *t) == Some((p.0@, p.1@)),
        r is None ==> divf_spec(w@, ops@, *t) is None,
{
    let i = def_of(t, ops.len(), w)?;
    let d = &ops[i];
    if !is_type(d, "arith.divf") || d.operands.len() < 2 {
        return None;
    }
    Some((d.operands[0].clone(), d.operands[1].clone()))
}

/// `%e = math.exp(arith.subf %x, %g)`: the un-shifted scores `%x`.
fn trace_exp_sub(e: &str, ops: &Vec<Operation>, t: &Tables) -> (r: Option<String>)
    requires
        t.wf(ops@.len() as int),
    ensures
        r matches Some(x) ==> exp_sub_spec(e@, ops@, *t) == Some(x@),
        r is None ==> exp_sub_spec(e@, ops@, *t) is None,
{
    let i = def_of(t, ops.len(), e)?;
    let ex = &ops[i];
    if !is_type(ex, "math.exp") || ex.operands.len() < 1 {
        return None;
    }
    let j = def_of(t, ops.len(), ex.operands[0].as_str())?;
    let sub = &ops[j];
    if !is_type(sub, "arith.subf") || sub.operands.len() < 1 {
        return None;
    }
    Some(sub.operands[0].clone())
}

/// A float scalar taken from a constant: its literal and `f32` bit pattern.
struct FloatConst {
    text: String,
    bits: u32,
}

/// `%s = arith.mulf %raw, tensor.splat(arith.constant c)`: `%raw` and the
/// constant `c` (a float literal, or an integer converted to `f32`).
fn trace_scale<F: FloatArith>(s: &str, ops: &Vec<Operation>, t: &Tables, floats: &F) -> (r: Option<(String, FloatConst)>)
    requires
        t.wf(ops@.len() as int),
    ensures
        r matches Some(p) ==> scale_spec(s@, ops@, *t) matches Some(q) && q.0 == p.0@ && match q.1 {
            Some(Attr::Float(text)) => p.1.text@ == text@,
            Some(Attr::Int(v)) => p.1.text@ == int_decimal(v as int),
            _ => false,
        },
        scale_spec(s@, ops@, *t) is None ==> r is None,
        (scale_spec(s@, ops@, *t) matches Some(q) && q.1 matches Some(Attr::Int(_))) ==> r is Some,
{
    let i = def_of(t, ops.len(), s)?;
    let mul = &ops[i];
    if !is_type(mul, "arith.mulf") || mul.operands.len() < 2 {
        return None;
    }
    let raw = mul.operands[0].clone();
    let j = def_of(t, ops.len(), mul.operands[1].as_str())?;
    let splat = &ops[j];
    if !is_type(splat, "tensor.splat") || splat.operands.len() < 1 {
        return None;
    }
    let k = def_of(t, ops.len(), splat.operands[0].as_str())?;
    let c = &ops[k];
    if !is_type(c, "arith.constant") {
        return None;
    }
    match c.get_attr("value") {
        Some(Attr::Float(text)) => {
            let bits = floats.parse_f32(text.as_str())?;
            Some((raw, FloatConst { text: text.clone(), bits }))
        },
        Some(Attr::Int(v)) => Some((raw, FloatConst { text: i64_to_decimal(*v), bits: floats.int_to_f32(*v) })),
        _ => None,
    }
}

/// `%raw = linalg.matmul %q, linalg.transpose(%k)` where `%k` is a load:
/// `%q` and the position of `%k`'s load chain.
fn trace_qk(raw: &str, ops: &Vec<Operation>, t: &Tables) -> (r: Option<(String, usize)>)
    requires
        t.wf(ops@.len() as int),
    ensures
        r matches Some(p) ==> p.1 < t.loads@.len(),
        r matches Some(p) ==> qk_spec(raw@, ops@, *t) == Some((p.0@, p.1 as int)),
        r is None ==> qk_spec(raw@, ops@, *t) is None,
{
    let i = def_of(t, ops.len(), raw)?;
    let mm = &ops[i];
    if !is_type(mm, "linalg.matmul") || mm.operands.len() < 2 {
        return None;
    }
    let q_loaded = mm.operands[0].clone();
    let j = def_of(t, ops.len(), mm.operands[1].as_str())?;
    let kt = &ops[j];
    if !is_type(kt, "linalg.transpose") || kt.operands.len() < 1 {
        return None;
    }
    let li = last_named(&t.loads, kt.operands[0].as_str())?;
    Some((q_loaded, li))
}

/// The mask constant of the context block: the float literal splatted into
/// the init of the `arith.maximumf` reduce over the masked scores (first such
/// reduce in program order among the ops still defining their names).
spec fn ninf_cand(scm_c: Seq<char>, ops: Seq<Operation>, t: Tables, k: int) -> Option<Option<Seq<char>>> {
    let op = ops[k];
    let is_max = match attr_lookup(op.attributes@, "reduce_fn"@) {
        Some(Attr::Str(f)) => f@ == "arith.maximumf"@,
        _ => false,
    };
    if op.result is Some && def_spec(t, op.result->0@) == Some(k as usize) && op.op_type@ == "linalg.reduce"@ && is_max
        && op.operands@.len() > 0 && op.operands@[0]@ == scm_c {
        let init: Option<Seq<char>> = match attr_lookup(op.attributes@, "outs_var"@) {
            Some(Attr::Str(v)) => Some(v@),
            _ => if op.operands@.len() < 2 {
                None
            } else {
                Some(op.operands@[1]@)
            },
        };
        match init {
            None => Some(None),
            Some(iname) => match def_spec(t, iname) {
                None => Some(None),
                Some(si) => {
                    let splat = ops[si as int];
                    if splat.operands@.len() < 1 {
                        Some(None)
                    } else if splat.op_type@ == "tensor.splat"@ {
                        match def_spec(t, splat.operands@[0]@) {
                            Some(ci) => if ops[ci as int].op_type@ == "arith.constant"@ {
                                match attr_lookup(ops[ci as int].attributes@, "value"@) {
                                    Some(Attr::Float(text)) => Some(Some(text@)),
                                    _ => None,
                                }
                            } else {
                                None
                            },
                            None => None,
                        }
                    } else {
                        None
                    }
                },
            },
        }
    } else {
        None
    }
}

fn recover_ninf<F: FloatArith>(scm_c: &str, ops: &Vec<Operation>, t: &Tables, floats: &F) -> (r: Option<FloatConst>)
    requires
        t.wf(ops@.len() as int),
    ensures
        r matches Some(fc) ==> exists|k: int|
            0 <= k < ops@.len() && #[trigger] ninf_cand(scm_c@, ops@, *t, k) == Some(Some(fc.text@)) && forall|j: int|
                0 <= j < k ==> !(#[trigger] ninf_cand(scm_c@, ops@, *t, j) matches Some(None)),
        (forall|k: int| 0 <= k < ops@.len() ==> !(#[trigger] ninf_cand(scm_c@, ops@, *t, k) matches Some(Some(_))))
            ==> r is None,
{
    let mut k: usize = 0;
    while k < ops.len()
        invariant
            0 <= k <= ops@.len(),
            t.wf(ops@.len() as int),
            forall|j: int| 0 <= j < k ==> !(#[trigger] ninf_cand(scm_c@, ops@, *t, j) matches Some(None)),
        decreases ops@.len() - k,
    {
        let op = &ops[k];
        if let Some(res) = &op.result {
            let current = match def_of(t, ops.len(), res.as_str()) {
                Some(d) => d == k,
                None => false,
            };
            let is_max_reduce = match op.get_attr("reduce_fn") {
                Some(Attr::Str(s)) => str_eq(s.as_str(), "arith.maximumf"),
                _ => false,
            };
            let over = op.operands.len() > 0 && str_eq(op.operands[0].as_str(), scm_c);
            if current && is_type(op, "linalg.reduce") && is_max_reduce && over {
                let init: String = match op.get_attr("outs_var") {
                    Some(Attr::Str(s)) => s.clone(),
                    _ => {
                        if op.operands.len() < 2 {
                            return None;
                        }
                        op.operands[1].clone()
                    },
                };
                let si = def_of(t, ops.len(), init.as_str())?;
                let splat = &ops[si];
                if splat.operands.len() < 1 {
                    return None;
                }
                if is_type(splat, "tensor.splat") {
                    if let Some(ci) = def_of(t, ops.len(), splat.operands[0].as_str()) {
                        let c = &ops[ci];
                        if is_type(c, "arith.constant") {
                            if let Some(Attr::Float(text)) = c.get_attr("value") {
                                if let Some(bits) = floats.parse_f32(text.as_str()) {
                                    assert(def_spec(*t, res@) == Some(k));
                                    assert(def_spec(*t, init@) == Some(si));
                                    assert(def_spec(*t, splat.operands@[0]@) == Some(ci));
                                    assert(ninf_cand(scm_c@, ops@, *t, k as int) == Some(Some(text@)));
                                    return Some(FloatConst { text: text.clone(), bits });
                                }
                            }
                        }
                    }
                }
            }
        }
        k = k + 1;
    }
    None
}

/// The `f32` nearest `-1.0e38`, the mask constant used when none is found.
pub const DEFAULT_NINF_BITS: u32 = 0xfe96_7699;

/// The `f32` nearest `1e-4`: how far the two blocks' scales may differ.
pub const SCALE_TOLERANCE_BITS: u32 = 0x38d1_b717;

fn i64s_eq(a: &Vec<i64>, b: &[i64]) -> (r: bool)
    ensures
        r == (a@ == b@),
{
    if a.len() != b.len() {
        return false;
    }
    let mut i: usize = 0;
    while i < a.len()
        invariant
            a@.len() == b@.len(),
            0 <= i <= a@.len(),
            forall|j: int| 0 <= j < i ==> a@[j] == b@[j],
        decreases a@.len() - i,
    {
        if a[i] != b[i] {
            return false;
        }
        i = i + 1;
    }
    assert(a@ =~= b@);
    true
}

/// One recognised query-row block: its row and the configuration it
/// implies.
struct RowMatch {
    q_row: i64,
    island: HeadAttnIsland,
}

/// The index of the last op of `ops` whose result is named `name`.
pub open spec fn def_in(ops: Seq<Operation>, name: Seq<char>) -> Option<int> {
    let d = def_entries(ops, ops.len() as int);
    match last_pos(entry_keys(d), name) {
        Some(i) => Some(d[i].1 as int),
        None => None,
    }
}

/// The op defining `name`, when it is of type `ty` with at least `n`
/// operands.
pub open spec fn def_typed(ops: Seq<Operation>, name: Seq<char>, ty: Seq<char>, n: int) -> Option<Operation> {
    match def_in(ops, name) {
        Some(i) => if ops[i].op_type@ == ty && ops[i].operands@.len() >= n {
            Some(ops[i])
        } else {
            None
        },
        None => None,
    }
}

/// The keys of load entries.
pub open spec fn load_keys(s: Seq<LoadEntry>) -> Seq<Seq<char>> {
    s.map_values(|e: LoadEntry| e.0)
}

/// What the last load named `name` reads: its pointer argument, view shape,
/// tile shape and dtype (with its name first).
pub open spec fn loaded(ops: Seq<Operation>, name: Seq<char>) -> Option<LoadEntry> {
    let l = load_entries(ops, ops.len() as int);
    match last_pos(load_keys(l), name) {
        Some(i) => Some(l[i]),
        None => None,
    }
}

/// The last access tile named `name`.
pub open spec fn tile_named(ops: Seq<Operation>, name: Seq<char>) -> Option<TileEntry> {
    let t = tile_entries(ops, ops.len() as int);
    match last_pos(tile_keys(t), name) {
        Some(i) => Some(t[i]),
        None => None,
    }
}

/// The scores behind softmax weights `w = divf(exp(subf(S, max)), sum)`: `S`.
pub open spec fn weights_of(ops: Seq<Operation>, w: Seq<char>) -> Option<Seq<char>> {
    match def_typed(ops, w, "arith.divf"@, 2) {
        Some(d) => match def_typed(ops, d.operands@[0]@, "math.exp"@, 1) {
            Some(ex) => match def_typed(ops, ex.operands@[0]@, "arith.subf"@, 1) {
                Some(sub) => Some(sub.operands@[0]@),
                None => None,
            },
            None => None,
        },
        None => None,
    }
}

/// The query and key loads behind scaled scores
/// `s = mulf(matmul(Q, transpose(K)), scale)`: the names `Q` and `K`.
pub open spec fn qk_of(ops: Seq<Operation>, s: Seq<char>) -> Option<(Seq<char>, Seq<char>)> {
    match def_typed(ops, s, "arith.mulf"@, 2) {
        Some(mul) => match def_typed(ops, mul.operands@[0]@, "linalg.matmul"@, 2) {
            Some(mm) => match def_typed(ops, mm.operands@[1]@, "linalg.transpose"@, 1) {
                Some(kt) => Some((mm.operands@[0]@, kt.operands@[0]@)),
                None => None,
            },
            None => None,
        },
        None => None,
    }
}

/// The pointer arguments one attention row reads and writes, traced back
/// from its store `store(addf(matmul(Wc, Vc), matmul(Wd, Vd)), O)`: the
/// query (from the context scores), the output view, the mask added to the
/// context scores, the context and diagonal keys (the transposed operands of
/// the two score products), and the context and diagonal values (the second
/// operands of the two weight products), in that order.
pub open spec fn row_args(ops: Seq<Operation>, store: Operation) -> Option<Seq<Seq<char>>> {
    if store.operands@.len() < 2 {
        None
    } else {
        match def_typed(ops, store.operands@[0]@, "arith.addf"@, 2) {
            None => None,
            Some(add) => match (
                def_typed(ops, add.operands@[0]@, "linalg.matmul"@, 2),
                def_typed(ops, add.operands@[1]@, "linalg.matmul"@, 2),
            ) {
                (Some(avc), Some(avd)) => match (weights_of(ops, avc.operands@[0]@), weights_of(ops, avd.operands@[0]@)) {
                    (Some(sc), Some(sd)) => match def_typed(ops, sc, "arith.addf"@, 2) {
                        Some(scm) => match (qk_of(ops, scm.operands@[0]@), qk_of(ops, sd)) {
                            (Some(qkc), Some(qkd)) => match (
                                loaded(ops, qkc.0),
                                loaded(ops, qkc.1),
                                loaded(ops, qkd.1),
                                loaded(ops, avc.operands@[1]@),
                                loaded(ops, avd.operands@[1]@),
                                loaded(ops, scm.operands@[1]@),
                                tile_named(ops, store.operands@[1]@),
                            ) {
                                (Some(q), Some(kc), Some(kd), Some(vc), Some(vd), Some(mask), Some(ot)) => match def_typed(
                                    ops,
                                    ot.1,
                                    "ktdp.construct_memory_view"@,
                                    1,
                                ) {
                                    Some(vop) => Some(seq![q.1, vop.operands@[0]@, mask.1, kc.1, kd.1, vc.1, vd.1]),
                                    None => None,
                                },
                                _ => None,
                            },
                            _ => None,
                        },
                        None => None,
                    },
                    _ => None,
                },
                _ => None,
            },
        }
    }
}

/// The island's pointer arguments in the order [`row_args`] gives them.
pub open spec fn island_args(isl: HeadAttnIsland) -> Seq<Seq<char>> {
    seq![isl.q_arg@, isl.o_arg@, isl.mask_arg@, isl.kc_arg@, isl.kd_arg@, isl.vc_arg@, isl.vd_arg@]
}

/// A position `last_pos` finds is one of the keys'.
proof fn lemma_last_pos_range(keys: Seq<Seq<char>>, key: Seq<char>)
    ensures
        last_pos(keys, key) matches Some(i) ==> 0 <= i < keys.len() && keys[i] == key,
    decreases keys.len(),
{
    if keys.len() > 0 && keys.last() != key {
        lemma_last_pos_range(keys.drop_last(), key);
    }
}

/// The tables mirror the ops: defining ops, loads and access tiles, looked
/// up by name, are those of [`def_in`], [`loaded`] and [`tile_named`].
proof fn lemma_tables_mirror(t: Tables, ops: Seq<Operation>)
    requires
        pairs_view(t.def@) == def_entries(ops, ops.len() as int),
        loads_view(t.loads@) == load_entries(ops, ops.len() as int),
        tiles_view(t.tiles@) == tile_entries(ops, ops.len() as int),
    ensures
        forall|name: Seq<char>| #[trigger] def_in(ops, name) == match def_spec(t, name) {
            Some(x) => Some(x as int),
            None => None,
        },
        forall|name: Seq<char>| #[trigger] loaded(ops, name) == match last_pos(table_keys(t.loads@), name) {
            Some(i) => Some(loads_view(t.loads@)[i]),
            None => None,
        },
        forall|name: Seq<char>| #[trigger] tile_named(ops, name) == match last_pos(table_keys(t.tiles@), name) {
            Some(i) => Some(tiles_view(t.tiles@)[i]),
            None => None,
        },
        forall|name: Seq<char>, ty: Seq<char>, n: int| #[trigger] def_typed(ops, name, ty, n) == def_op(t, ops, name, ty, n),
{
    assert(table_keys(t.def@) =~= entry_keys(def_entries(ops, ops.len() as int)));
    assert forall|name: Seq<char>| #[trigger] def_in(ops, name) == match def_spec(t, name) {
        Some(x) => Some(x as int),
        None => None,
    } by {
        lemma_last_pos_range(table_keys(t.def@), name);
        match last_pos(table_keys(t.def@), name) {
            Some(i) => {
                assert(pairs_view(t.def@)[i] == (t.def@[i].0@, t.def@[i].1));
            },
            None => {},
        }
    }
    assert(table_keys(t.loads@) =~= load_keys(load_entries(ops, ops.len() as int)));
    assert(table_keys(t.tiles@) =~= tile_keys(tile_entries(ops, ops.len() as int)));
    assert forall|name: Seq<char>, ty: Seq<char>, n: int| #[trigger] def_typed(ops, name, ty, n) == def_op(t, ops, name, ty, n) by {
        assert(def_in(ops, name) == match def_spec(t, name) {
            Some(x) => Some(x as int),
            None => None,
        });
    }
}

/// The op kinds every recognised attention row is built from: the two
/// weight-times-values `linalg.matmul`s and the `arith.addf` that sums them.
pub open spec fn attention_ops_present(ops: Seq<Operation>) -> bool {
    &&& has_type(ops, "linalg.matmul"@)
    &&& has_type(ops, "arith.addf"@)
}

/// Walk back from one row's `ktdp.store` and check the two-block online
/// softmax signature: `store(addf(matmul(Wc, Vc), matmul(Wd, Vd)))` with
/// `W = divf(exp(subf(S, max)), sum)`, context scores
/// `S_c = mulf(matmul(Q, transpose(Kc)), scale) + mask` and diagonal scores
/// `S_d = mulf(matmul(Q, transpose(Kd)), scale)`, both blocks reading the
/// same Q and scales within tolerance, and every view and access tile of the
/// expected shape (`Kd` / `Vd` reading exactly `row + 1` rows).
fn recognize_row<F: FloatArith>(
    store: &Operation,
    ops: &Vec<Operation>,
    t: &Tables,
    m: i64,
    gqac: i64,
    h: i64,
    floats: &F,
) -> (r: Option<RowMatch>)
    requires
        t.wf(ops@.len() as int),
        pairs_view(t.def@) == def_entries(ops@, ops@.len() as int),
        loads_view(t.loads@) == load_entries(ops@, ops@.len() as int),
        tiles_view(t.tiles@) == tile_entries(ops@, ops@.len() as int),
        h > 1,
        gqac >= 1,
        m > 0,
    ensures
        r matches Some(rm) ==> island_shapes_ok(rm.island) && rm.island.h == h && rm.island.m == m
            && rm.island.gqac == gqac,
        r is Some ==> attention_ops_present(ops@),
        r matches Some(rm) ==> row_args(ops@, *store) == Some(island_args(rm.island)),
{
    proof {
        lemma_tables_mirror(*t, ops@);
    }
    if store.operands.len() < 2 {
        return None;
    }
    let stored_val = store.operands[0].as_str();
    let oti = last_named(&t.tiles, store.operands[1].as_str())?;
    let o_tile = &t.tiles[oti].1;
    if o_tile.indices.len() < 1 {
        return None;
    }
    let q_row = const_of(t, o_tile.indices[0].as_str())?;

    let ai = def_of(t, ops.len(), stored_val)?;
    let add = &ops[ai];
    if !is_type(add, "arith.addf") || add.operands.len() < 2 {
        return None;
    }
    let avci = def_of(t, ops.len(), add.operands[0].as_str())?;
    let avc = &ops[avci];
    if !is_type(avc, "linalg.matmul") || avc.operands.len() < 2 {
        return None;
    }
    assert(attention_ops_present(ops@)) by {
        assert(ops@[ai as int].op_type@ == "arith.addf"@);
        assert(ops@[avci as int].op_type@ == "linalg.matmul"@);
    }
    let wc = avc.operands[0].as_str();
    let vci = last_named(&t.loads, avc.operands[1].as_str())?;
    let avdi = def_of(t, ops.len(), add.operands[1].as_str())?;
    let avd = &ops[avdi];
    if !is_type(avd, "linalg.matmul") || avd.operands.len() < 2 {
        return None;
    }
    let wd = avd.operands[0].as_str();
    let vdi = last_named(&t.loads, avd.operands[1].as_str())?;

    let (exp_c, _gsc) = trace_divf(wc, ops, t)?;
    let (exp_d, _gsd) = trace_divf(wd, ops, t)?;
    let scm_c = trace_exp_sub(exp_c.as_str(), ops, t)?;
    let sd = trace_exp_sub(exp_d.as_str(), ops, t)?;

    let smi = def_of(t, ops.len(), scm_c.as_str())?;
    let scm_op = &ops[smi];
    if !is_type(scm_op, "arith.addf") || scm_op.operands.len() < 2 {
        return None;
    }
    let scaled_c = scm_op.operands[0].as_str();
    let mi = last_named(&t.loads, scm_op.operands[1].as_str())?;

    let (raw_c, scale) = trace_scale(scaled_c, ops, t, floats)?;
    let (q_loaded_c, kci) = trace_qk(raw_c.as_str(), ops, t)?;
    let (raw_d, scale_d) = trace_scale(sd.as_str(), ops, t, floats)?;
    let diff = floats.subf(scale.bits, scale_d.bits) & 0x7fff_ffffu32;
    if floats.ltf(SCALE_TOLERANCE_BITS, diff) {
        return None;
    }
    let (q_loaded_d, kdi) = trace_qk(raw_d.as_str(), ops, t)?;

    let qci = last_named(&t.loads, q_loaded_c.as_str())?;
    let qdi = last_named(&t.loads, q_loaded_d.as_str())?;
    let q_c = &t.loads[qci].1;
    let q_d = &t.loads[qdi].1;
    if !str_eq(q_c.arg.as_str(), q_d.arg.as_str()) {
        return None;
    }

    let ninf = match recover_ninf(scm_c.as_str(), ops, t, floats) {
        Some(c) => c,
        None => FloatConst { text: String::from_str("-1.0e38"), bits: DEFAULT_NINF_BITS },
    };

    let kc = &t.loads[kci].1;
    let kd = &t.loads[kdi].1;
    let vc = &t.loads[vci].1;
    let vd = &t.loads[vdi].1;
    let mask_chain = &t.loads[mi].1;

    let q_shape = &q_c.view_shape;
    if q_shape.len() != 2 || q_shape[0] != m {
        return None;
    }
    let q_cols = q_shape[1];
    if q_cols <= 0 || q_cols % h != 0 {
        return None;
    }
    let d = q_cols / h;
    if d <= 0 {
        return None;
    }
    if kc.view_shape.len() != 2 || !i64s_eq(&vc.view_shape, kc.view_shape.as_slice()) {
        return None;
    }
    let cap = kc.view_shape[0];
    let kv_cols = kc.view_shape[1];
    if cap <= 0 || kv_cols <= 0 || kv_cols % d != 0 {
        return None;
    }
    if !i64s_eq(&kc.tile_shape, &[cap, d]) || !i64s_eq(&vc.tile_shape, &[cap, d]) {
        return None;
    }
    if !i64s_eq(&kd.view_shape, &[m, kv_cols]) || !i64s_eq(&vd.view_shape, &[m, kv_cols]) {
        return None;
    }
    if q_row < 0 || q_row >= m {
        return None;
    }
    let rows = q_row + 1;
    if !i64s_eq(&kd.tile_shape, &[rows, d]) || !i64s_eq(&vd.tile_shape, &[rows, d]) {
        return None;
    }
    let ovi = def_of(t, ops.len(), o_tile.view.as_str())?;
    let vop = &ops[ovi];
    if !is_type(vop, "ktdp.construct_memory_view") {
        return None;
    }
    let os = shape_attr(vop);
    if !i64s_eq(&os, q_shape.as_slice()) {
        return None;
    }
    if vop.operands.len() < 1 {
        return None;
    }
    let o_arg = vop.operands[0].clone();
    if !i64s_eq(&mask_chain.view_shape, &[1, cap]) {
        return None;
    }
    proof {
        vstd::arithmetic::div_mod::lemma_fundamental_div_mod(q_cols as int, h as int);
        vstd::arithmetic::mul::lemma_mul_is_commutative(h as int, d as int);
        assert(q_cols == h * d);
        let o = ops@;
        assert(def_typed(o, stored_val@, "arith.addf"@, 2) == Some(*add));
        assert(def_typed(o, add.operands@[0]@, "linalg.matmul"@, 2) == Some(*avc));
        assert(def_typed(o, add.operands@[1]@, "linalg.matmul"@, 2) == Some(*avd));
        assert(weights_of(o, wc@) == Some(scm_c@));
        assert(weights_of(o, wd@) == Some(sd@));
        assert(def_typed(o, scm_c@, "arith.addf"@, 2) == Some(*scm_op));
        assert(qk_of(o, scaled_c@) matches Some(p) && p.0 == q_loaded_c@ && loaded(o, p.1) == Some(loads_view(t.loads@)[kci as int]));
        assert(qk_of(o, sd@) matches Some(p) && p.0 == q_loaded_d@ && loaded(o, p.1) == Some(loads_view(t.loads@)[kdi as int]));
        assert(loaded(o, q_loaded_c@) == Some(loads_view(t.loads@)[qci as int]));
        assert(loaded(o, avc.operands@[1]@) == Some(loads_view(t.loads@)[vci as int]));
        assert(loaded(o, avd.operands@[1]@) == Some(loads_view(t.loads@)[vdi as int]));
        assert(loaded(o, scm_op.operands@[1]@) == Some(loads_view(t.loads@)[mi as int]));
        assert(tile_named(o, store.operands@[1]@) == Some(tiles_view(t.tiles@)[oti as int]));
        assert(def_typed(o, o_tile.view@, "ktdp.construct_memory_view"@, 1) == Some(*vop));
    }
    let island = HeadAttnIsland {
        q_arg: q_c.arg.clone(),
        o_arg,
        mask_arg: mask_chain.arg.clone(),
        kc_arg: kc.arg.clone(),
        kd_arg: kd.arg.clone(),
        vc_arg: vc.arg.clone(),
        vd_arg: vd.arg.clone(),
        q_cols,
        kv_cols,
        m,
        cap,
        d,
        gqac,
        hdc: d,
        h,
        scale: scale.text,
        scale_bits: scale.bits,
        ninf: ninf.text,
        ninf_bits: ninf.bits,
        dtype: q_c.dtype.clone(),
    };
    assert(row_args(ops@, *store) == Some(island_args(island)));
    Some(RowMatch { q_row, island })
}

/// Two rows imply the same configuration: same arguments, shapes, divisor,
/// dtype, and the same scale and mask constants as `f32` values (compared
/// by bit pattern).
fn same_config(a: &HeadAttnIsland, b: &HeadAttnIsland) -> (r: bool)
    ensures
        r == (a.q_arg@ == b.q_arg@ && a.o_arg@ == b.o_arg@ && a.mask_arg@ == b.mask_arg@ && a.kc_arg@ == b.kc_arg@
            && a.kd_arg@ == b.kd_arg@ && a.vc_arg@ == b.vc_arg@ && a.vd_arg@ == b.vd_arg@ && a.q_cols == b.q_cols
            && a.kv_cols == b.kv_cols && a.m == b.m && a.cap == b.cap && a.d == b.d && a.gqac == b.gqac && a.hdc
            == b.hdc && a.h == b.h && a.scale_bits == b.scale_bits && a.ninf_bits == b.ninf_bits && a.dtype@
            == b.dtype@),
{
    str_eq(a.q_arg.as_str(), b.q_arg.as_str()) && str_eq(a.o_arg.as_str(), b.o_arg.as_str()) && str_eq(
        a.mask_arg.as_str(),
        b.mask_arg.as_str(),
    ) && str_eq(a.kc_arg.as_str(), b.kc_arg.as_str()) && str_eq(a.kd_arg.as_str(), b.kd_arg.as_str())
        && str_eq(a.vc_arg.as_str(), b.vc_arg.as_str()) && str_eq(a.vd_arg.as_str(), b.vd_arg.as_str())
        && a.q_cols == b.q_cols && a.kv_cols == b.kv_cols && a.m == b.m && a.cap == b.cap && a.d == b.d
        && a.gqac == b.gqac && a.hdc == b.hdc && a.h == b.h && a.scale_bits == b.scale_bits && a.ninf_bits
        == b.ninf_bits && str_eq(a.dtype.as_str(), b.dtype.as_str())
}

/// Recognise the unrolled head-parallel two-block attention idiom in
/// `func`. `Some` only when every structural invariant holds: grid
/// `(H, 1, 1)` with `H > 1`; no top-level control flow; a
/// `ktdp.get_compute_tile_id`; the first `arith.divui` dividing by an
/// integer constant `gqac >= 1`; `m >= 1` stores, one per query row
/// `0..m`, each matching the two-block signature; and all rows implying the
/// same configuration.
pub fn recognize_head_attention<F: FloatArith>(func: &IRFunction, floats: &F) -> (r: Option<HeadAttnIsland>)
    ensures
        r matches Some(isl) ==> {
            &&& island_shapes_ok(isl)
            &&& func.grid == (func.grid.0, 1usize, 1usize)
            &&& func.grid.0 > 1
            &&& isl.h == func.grid.0 as i64
            &&& no_control_flow(func.operations@)
            &&& has_type(func.operations@, "ktdp.get_compute_tile_id"@)
            &&& isl.m == count_type(func.operations@, "ktdp.store"@)
        },
        (func.grid.1 != 1 || func.grid.2 != 1 || func.grid.0 <= 1) ==> r is None,
        !no_control_flow(func.operations@) ==> r is None,
        !has_type(func.operations@, "ktdp.get_compute_tile_id"@) ==> r is None,
        count_type(func.operations@, "ktdp.store"@) == 0 ==> r is None,
        !attention_ops_present(func.operations@) ==> r is None,
        // every store is the end of a row wired as the idiom is, reading and
        // writing the island's pointer arguments
        r matches Some(isl) ==> forall|j: int|
            0 <= j < func.operations@.len() && (#[trigger] func.operations@[j]).op_type@ == "ktdp.store"@
                ==> row_args(func.operations@, func.operations@[j]) == Some(island_args(isl)),
{
    let (gx, gy, gz) = func.grid;
    if gy != 1 || gz != 1 || gx <= 1 {
        return None;
    }
    let h = gx as i64;
    if h <= 1 {
        return None;
    }
    let ops = &func.operations;
    let n = ops.len();
    let mut i: usize = 0;
    while i < n
        invariant
            n == ops@.len(),
            0 <= i <= n,
            forall|j: int| 0 <= j < i ==> !is_control_flow(#[trigger] ops@[j].op_type@),
        decreases n - i,
    {
        if control_flow(&ops[i]) {
            return None;
        }
        i = i + 1;
    }
    let t = build_tables(ops);
    let mut gqac_opt: Option<i64> = None;
    let mut k: usize = 0;
    while k < n
        invariant
            n == ops@.len(),
            0 <= k <= n,
        decreases n - k,
    {
        if is_type(&ops[k], "arith.divui") {
            if ops[k].operands.len() < 2 {
                return None;
            }
            gqac_opt = Some(const_of(&t, ops[k].operands[1].as_str())?);
            break;
        }
        k = k + 1;
    }
    let gqac = gqac_opt?;
    if gqac < 1 {
        return None;
    }
    let mut has_tile_id = false;
    let mut p: usize = 0;
    while p < n
        invariant
            n == ops@.len(),
            0 <= p <= n,
            has_tile_id ==> has_type(ops@, "ktdp.get_compute_tile_id"@),
            !has_tile_id ==> forall|j: int| 0 <= j < p ==> #[trigger] ops@[j].op_type@ != "ktdp.get_compute_tile_id"@,
        decreases n - p,
    {
        if is_type(&ops[p], "ktdp.get_compute_tile_id") {
            has_tile_id = true;
        }
        p = p + 1;
    }
    if !has_tile_id {
        return None;
    }
    let mut stores: Vec<usize> = Vec::new();
    let mut q: usize = 0;
    while q < n
        invariant
            n == ops@.len(),
            0 <= q <= n,
            stores@.len() == count_type(ops@.subrange(0, q as int), "ktdp.store"@),
            forall|j: int| 0 <= j < stores@.len() ==> #[trigger] stores@[j] < n,
            forall|j: int| 0 <= j < stores@.len() ==> (#[trigger] ops@[stores@[j] as int]).op_type@ == "ktdp.store"@,
            forall|j: int| 0 <= j < q && (#[trigger] ops@[j]).op_type@ == "ktdp.store"@ ==> stores@.contains(j as usize),
        decreases n - q,
    {
        assert(ops@.subrange(0, q + 1).drop_last() =~= ops@.subrange(0, q as int));
        let ghost st0 = stores@;
        if is_type(&ops[q], "ktdp.store") {
            stores.push(q);
            assert(stores@[st0.len() as int] == q);
        }
        assert forall|j: int| 0 <= j < q + 1 && (#[trigger] ops@[j]).op_type@ == "ktdp.store"@ implies stores@.contains(j as usize) by {
            if j < q {
                let x = choose|x: int| 0 <= x < st0.len() && st0[x] == j as usize;
                assert(stores@[x] == j as usize);
            }
        }
        q = q + 1;
    }
    assert(ops@.subrange(0, n as int) =~= ops@);
    if stores.len() == 0 || stores.len() as u64 > 0x7fff_ffff_ffff_ffffu64 {
        return None;
    }
    let m = stores.len() as i64;
    let mut seen: Vec<bool> = Vec::new();
    let mut s: usize = 0;
    while s < stores.len()
        invariant
            0 <= s <= stores@.len(),
            seen@.len() == s,
        decreases stores@.len() - s,
    {
        seen.push(false);
        s = s + 1;
    }
    let mut cfg: Option<HeadAttnIsland> = None;
    let mut w: usize = 0;
    while w < stores.len()
        invariant
            0 <= w <= stores@.len(),
            seen@.len() == stores@.len(),
            m == stores@.len(),
            m > 0,
            h > 1,
            gqac >= 1,
            t.wf(ops@.len() as int),
            n == ops@.len(),
            forall|j: int| 0 <= j < stores@.len() ==> #[trigger] stores@[j] < n,
            cfg matches Some(isl) ==> island_shapes_ok(isl) && isl.h == h && isl.m == m && isl.gqac == gqac,
            w > 0 ==> attention_ops_present(ops@),
            pairs_view(t.def@) == def_entries(ops@, ops@.len() as int),
            loads_view(t.loads@) == load_entries(ops@, ops@.len() as int),
            tiles_view(t.tiles@) == tile_entries(ops@, ops@.len() as int),
            w > 0 ==> cfg is Some,
            cfg matches Some(isl) ==> forall|x: int|
                0 <= x < w ==> row_args(ops@, #[trigger] ops@[stores@[x] as int]) == Some(island_args(isl)),
        decreases stores@.len() - w,
    {
        let row = recognize_row(&ops[stores[w]], ops, &t, m, gqac, h, floats)?;
        if row.q_row < 0 || row.q_row >= m {
            return None;
        }
        let slot = row.q_row as usize;
        if seen[slot] {
            return None;
        }
        seen.set(slot, true);
        let agrees = match &cfg {
            None => true,
            Some(prev) => same_config(prev, &row.island),
        };
        if !agrees {
            return None;
        }
        let ghost rargs = island_args(row.island);
        let ghost cfg0 = cfg;
        if cfg.is_none() {
            cfg = Some(row.island);
        }
        proof {
            let isl = cfg->Some_0;
            assert(island_args(isl) == rargs);
            assert forall|x: int| 0 <= x < w + 1 implies row_args(ops@, #[trigger] ops@[stores@[x] as int]) == Some(island_args(isl)) by {
                if x < w {
                    assert(cfg0 == cfg);
                }
            }
        }
        w = w + 1;
    }
    let mut v: usize = 0;
    while v < seen.len()
        invariant
            0 <= v <= seen@.len(),
        decreases seen@.len() - v,
    {
        if !seen[v] {
            return None;
        }
        v = v + 1;
    }
    proof {
        if cfg is Some {
            let isl = cfg->Some_0;
            assert forall|j: int|
                0 <= j < ops@.len() && (#[trigger] ops@[j]).op_type@ == "ktdp.store"@ implies row_args(ops@, ops@[j])
                == Some(island_args(isl)) by {
                assert(stores@.contains(j as usize));
                let x = choose|x: int| 0 <= x < stores@.len() && stores@[x] == j as usize;
                assert(ops@[stores@[x] as int] == ops@[j]);
            }
        }
    }
    cfg
}

// ---------------------------------------------------------------------------
// Rewrite
// ---------------------------------------------------------------------------

/// The op types of `ops`, in order.
pub open spec fn op_types(ops: Seq<Operation>) -> Seq<Seq<char>> {
    ops.map_values(|o: Operation| o.op_type@)
}

proof fn lemma_types_push(s: Seq<Operation>, x: Operation)
    ensures
        op_types(s.push(x)) == op_types(s).push(x.op_type@),
{
    assert(op_types(s.push(x)) =~= op_types(s).push(x.op_type@));
}

/// `after` is `before` with `n` more ops appended.
pub open spec fn extends(before: Seq<Operation>, after: Seq<Operation>, n: int) -> bool {
    &&& after.len() == before.len() + n
    &&& forall|k: int| 0 <= k < before.len() ==> #[trigger] after[k] == before[k]
}

/// The result name of op `j` of `ops`.
pub open spec fn rn(ops: Seq<Operation>, j: int) -> Seq<char> {
    ops[j].result->0@
}

/// Op `k` of `ops` has a result and reads exactly the SSA names `names`,
/// in order.
pub open spec fn wired(ops: Seq<Operation>, k: int, names: Seq<Seq<char>>) -> bool {
    &&& 0 <= k < ops.len()
    &&& ops[k].result is Some
    &&& ops[k].operands@.len() == names.len()
    &&& forall|i: int| 0 <= i < names.len() ==> #[trigger] ops[k].operands@[i]@ == names[i]
}

/// Op `k` of `ops` has no result and reads exactly the SSA names `names`,
/// in order.
pub open spec fn wired_void(ops: Seq<Operation>, k: int, names: Seq<Seq<char>>) -> bool {
    &&& 0 <= k < ops.len()
    &&& ops[k].result is None
    &&& ops[k].operands@.len() == names.len()
    &&& forall|i: int| 0 <= i < names.len() ==> #[trigger] ops[k].operands@[i]@ == names[i]
}

fn push_op(ops: &mut Vec<Operation>, op: Operation)
    ensures
        final(ops)@ == old(ops)@.push(op),
        op_types(final(ops)@) == op_types(old(ops)@).push(op.op_type@),
{
    proof {
        lemma_types_push(old(ops)@, op);
    }
    ops.push(op);
}

/// Fresh SSA names for one rewritten body: `%hr_<tag>_<n>`, `n` counting up.
pub struct NameGen {
    pub n: usize,
}

impl NameGen {
    /// A generator starting at 0.
    pub fn new() -> (g: NameGen)
        ensures
            g.n == 0,
    {
        NameGen { n: 0 }
    }

    /// `%hr_<tag>_<n>`, then advance `n`.
    pub fn next(&mut self, tag: &str) -> (s: String)
        requires
            old(self).n < usize::MAX,
        ensures
            final(self).n == old(self).n + 1,
            s@ == "%hr_"@ + tag@ + "_"@ + crate::text::nat_decimal(old(self).n as nat),
    {
        let mut s = String::from_str("%hr_");
        s.append(tag);
        s.append("_");
        let num = crate::text::usize_to_decimal(self.n);
        s.append(num.as_str());
        proof {
            reveal_strlit("%hr_");
            reveal_strlit("_");
        }
        self.n = self.n + 1;
        s
    }
}

/// `%name = arith.constant <v>` with an integer value.
pub fn const_index(name: &str, v: i64) -> (op: Operation)
    ensures
        op.op_type@ == "arith.constant"@,
        op.result matches Some(r) && r@ == name@,
        op.operands@.len() == 0,
        attr_lookup(op.attributes@, "value"@) == Some(Attr::Int(v)),
{
    Operation::new(Some(name), "arith.constant", &[]).with_attr("value", Attr::Int(v))
}

/// `%name = arith.constant <lit>` with a float literal.
pub fn const_f(name: &str, lit: &str) -> (op: Operation)
    ensures
        op.op_type@ == "arith.constant"@,
        op.result matches Some(r) && r@ == name@,
        op.operands@.len() == 0,
        attr_lookup(op.attributes@, "value"@) matches Some(Attr::Float(t)) && t@ == lit@,
{
    Operation::new(Some(name), "arith.constant", &[]).with_attr("value", Attr::Float(String::from_str(lit)))
}

/// `%res = ktdp.construct_memory_view %ptr` over a row-major `[rows, cols]`
/// HBM view of `dtype` (a logical view only; nothing is allocated).
pub fn mk_view(res: &str, ptr: &str, rows: i64, cols: i64, dtype: &str) -> (op: Operation)
    ensures
        op.op_type@ == "ktdp.construct_memory_view"@,
        op.result matches Some(r) && r@ == res@,
        op.operands@.len() == 1 && op.operands@[0]@ == ptr@,
        attr_lookup(op.attributes@, "shape"@) matches Some(Attr::IntList(v)) && v@ == seq![rows, cols],
        attr_lookup(op.attributes@, "strides"@) matches Some(Attr::IntList(v)) && v@ == seq![cols, 1i64],
{
    let mut shape: Vec<i64> = Vec::new();
    shape.push(rows);
    shape.push(cols);
    let mut strides: Vec<i64> = Vec::new();
    strides.push(cols);
    strides.push(1);
    proof {
        reveal_strlit("shape");
        reveal_strlit("strides");
        reveal_strlit("memory_space");
        reveal_strlit("dtype");
    }
    let op0 = Operation::new(Some(res), "ktdp.construct_memory_view", &[ptr]);
    let op1 = op0.with_attr("shape", Attr::IntList(shape));
    assert(attr_lookup(op1.attributes@, "shape"@) matches Some(Attr::IntList(v)) && v@ == seq![rows, cols]);
    let op2 = op1.with_attr("strides", Attr::IntList(strides));
    assert("strides"@.len() != "shape"@.len());
    assert(attr_lookup(op2.attributes@, "shape"@) == attr_lookup(op1.attributes@, "shape"@));
    let op3 = op2.with_attr("memory_space", Attr::Str(String::from_str("HBM")));
    assert("memory_space"@.len() != "shape"@.len() && "memory_space"@.len() != "strides"@.len());
    assert(attr_lookup(op3.attributes@, "shape"@) == attr_lookup(op1.attributes@, "shape"@));
    assert(attr_lookup(op3.attributes@, "strides"@) == attr_lookup(op2.attributes@, "strides"@));
    let op = op3.with_attr("dtype", Attr::Str(String::from_str(dtype)));
    assert("dtype"@ != "shape"@ && "dtype"@.len() != "strides"@.len()) by {
        assert("dtype"@[0] != "shape"@[0]);
    }
    assert(attr_lookup(op.attributes@, "shape"@) == attr_lookup(op1.attributes@, "shape"@));
    assert(attr_lookup(op.attributes@, "strides"@) == attr_lookup(op2.attributes@, "strides"@));
    op
}

fn dims2(a: i64, b: i64) -> (v: Vec<i64>)
    ensures
        v@ == seq![a, b],
{
    let mut v: Vec<i64> = Vec::new();
    v.push(a);
    v.push(b);
    v
}

fn dims1(a: i64) -> (v: Vec<i64>)
    ensures
        v@ == seq![a],
{
    let mut v: Vec<i64> = Vec::new();
    v.push(a);
    v
}

/// `%res = tensor.splat %scalar` to `shape`.
fn mk_splat(res: &str, scalar: &str, shape: Vec<i64>, dtype: &str) -> (op: Operation)
    ensures
        op.op_type@ == "tensor.splat"@,
        op.result matches Some(x) && x@ == res@,
        op.operands@.len() == 1 && op.operands@[0]@ == scalar@,
{
    Operation::new(Some(res), "tensor.splat", &[scalar]).with_attr("shape", Attr::IntList(shape)).with_attr(
        "dtype",
        Attr::Str(String::from_str(dtype)),
    )
}

/// `%res = tensor.empty` of `shape`.
fn mk_empty(res: &str, shape: Vec<i64>, dtype: &str) -> (op: Operation)
    ensures
        op.op_type@ == "tensor.empty"@,
        op.result matches Some(x) && x@ == res@,
        op.operands@.len() == 0,
{
    Operation::new(Some(res), "tensor.empty", &[]).with_attr("shape", Attr::IntList(shape)).with_attr(
        "dtype",
        Attr::Str(String::from_str(dtype)),
    )
}

/// `%res = linalg.reduce {reduce_fn} ins(%x) outs(%init)` over the last axis
/// of a `[m, c]` tile.
fn mk_reduce(res: &str, x: &str, init: &str, reduce_fn: &str) -> (op: Operation)
    ensures
        op.op_type@ == "linalg.reduce"@,
        op.result matches Some(r) && r@ == res@,
        op.operands@.len() == 1 && op.operands@[0]@ == x@,
{
    let mut one: Vec<i64> = Vec::new();
    one.push(1);
    Operation::new(Some(res), "linalg.reduce", &[x]).with_attr("reduce_fn", Attr::Str(String::from_str(reduce_fn)))
        .with_attr("dimensions", Attr::IntList(one)).with_attr("outs_var", Attr::Str(String::from_str(init)))
}

/// Load a `[rows, cols]` tile of `view` at `[%row, %col]` (the offsets stay
/// SSA, so each core reads its own head's columns).
fn block_load(g: &mut NameGen, ops: &mut Vec<Operation>, view: &str, row: &str, col: &str, rows: i64, cols: i64) -> (r:
    String)
    requires
        old(g).n < 1000,
    ensures
        final(g).n == old(g).n + 2,
        op_types(final(ops)@) == op_types(old(ops)@).push("ktdp.construct_access_tile"@).push("ktdp.load"@),
        extends(old(ops)@, final(ops)@, 2),
        wired(final(ops)@, old(ops)@.len() as int, seq![view@, row@, col@]),
        wired(final(ops)@, old(ops)@.len() + 1int, seq![rn(final(ops)@, old(ops)@.len() as int)]),
        r@ == rn(final(ops)@, old(ops)@.len() + 1int),
{
    let at = g.next("at");
    push_op(
        ops,
        Operation::new(Some(at.as_str()), "ktdp.construct_access_tile", &[view, row, col]).with_attr(
            "shape",
            Attr::IntList(dims2(rows, cols)),
        ),
    );
    let loaded = g.next("ld");
    push_op(ops, Operation::new(Some(loaded.as_str()), "ktdp.load", &[at.as_str()]));
    loaded
}

/// `linalg.transpose ins(%x) outs(%init) permutation = [1, 0]`: `[rows, cols]`
/// to `[cols, rows]`.
fn mk_transpose(g: &mut NameGen, ops: &mut Vec<Operation>, x: &str, rows: i64, cols: i64, dtype: &str) -> (r: String)
    requires
        old(g).n < 1000,
    ensures
        final(g).n == old(g).n + 2,
        op_types(final(ops)@) == op_types(old(ops)@).push("tensor.empty"@).push("linalg.transpose"@),
        extends(old(ops)@, final(ops)@, 2),
        wired(final(ops)@, old(ops)@.len() as int, seq![]),
        wired(final(ops)@, old(ops)@.len() + 1int, seq![x@, rn(final(ops)@, old(ops)@.len() as int)]),
        r@ == rn(final(ops)@, old(ops)@.len() + 1int),
{
    let init = g.next("tpi");
    push_op(ops, mk_empty(init.as_str(), dims2(cols, rows), dtype));
    let res = g.next("tp");
    push_op(
        ops,
        Operation::new(Some(res.as_str()), "linalg.transpose", &[x, init.as_str()]).with_attr(
            "permutation",
            Attr::IntList(dims2(1, 0)),
        ),
    );
    res
}

/// `C = A @ B` into a fresh `tensor.empty` outs, so the matmul's `C + A @ B`
/// is `A @ B`.
fn mk_matmul(g: &mut NameGen, ops: &mut Vec<Operation>, a: &str, b: &str, rows: i64, cols: i64, dtype: &str) -> (r:
    String)
    requires
        old(g).n < 1000,
    ensures
        final(g).n == old(g).n + 2,
        op_types(final(ops)@) == op_types(old(ops)@).push("tensor.empty"@).push("linalg.matmul"@),
        extends(old(ops)@, final(ops)@, 2),
        wired(final(ops)@, old(ops)@.len() as int, seq![]),
        wired(final(ops)@, old(ops)@.len() + 1int, seq![a@, b@, rn(final(ops)@, old(ops)@.len() as int)]),
        r@ == rn(final(ops)@, old(ops)@.len() + 1int),
{
    let init = g.next("mmi");
    push_op(ops, mk_empty(init.as_str(), dims2(rows, cols), dtype));
    let res = g.next("mm");
    push_op(ops, Operation::new(Some(res.as_str()), "linalg.matmul", &[a, b, init.as_str()]));
    res
}

/// Broadcast a `[m]` row vector to `[m, cols]`: reshape to `[m, 1]`, then
/// `linalg.broadcast` to the outs shape.
fn broadcast_row_to(g: &mut NameGen, ops: &mut Vec<Operation>, rowv: &str, m: i64, cols: i64, dtype: &str) -> (r:
    String)
    requires
        old(g).n < 1000,
    ensures
        final(g).n == old(g).n + 3,
        op_types(final(ops)@) == op_types(old(ops)@).push("tensor.reshape"@).push("tensor.empty"@).push(
            "linalg.broadcast"@,
        ),
        extends(old(ops)@, final(ops)@, 3),
        wired(final(ops)@, old(ops)@.len() as int, seq![rowv@]),
        wired(final(ops)@, old(ops)@.len() + 1int, seq![]),
        wired(
            final(ops)@,
            old(ops)@.len() + 2int,
            seq![rn(final(ops)@, old(ops)@.len() as int), rn(final(ops)@, old(ops)@.len() + 1int)],
        ),
        r@ == rn(final(ops)@, old(ops)@.len() + 2int),
{
    let r2 = g.next("rs");
    push_op(
        ops,
        Operation::new(Some(r2.as_str()), "tensor.reshape", &[rowv]).with_attr(
            "target_shape",
            Attr::IntList(dims2(m, 1)),
        ),
    );
    let init = g.next("bci");
    push_op(ops, mk_empty(init.as_str(), dims2(m, cols), dtype));
    let res = g.next("bc");
    push_op(
        ops,
        Operation::new(Some(res.as_str()), "linalg.broadcast", &[r2.as_str(), init.as_str()]).with_attr(
            "dimensions",
            Attr::IntList(Vec::new()),
        ),
    );
    res
}

/// Entry `(r, k)` of the causal mask: `0.0` where `k <= r` (visible), the
/// mask constant where `k > r`.
pub open spec fn causal_entry(r: int, k: int, ninf: Seq<char>) -> Seq<char> {
    if k <= r {
        "0.0"@
    } else {
        ninf
    }
}

/// The static lower-triangular `[m, m]` causal mask as a dense constant:
/// entry `r * m + k` is `0.0` for `k <= r` and `ninf` above the diagonal.
pub fn causal_mask_mm(res: &str, m: i64, ninf: &str, dtype: &str) -> (op: Operation)
    requires
        0 <= m,
        m * m <= usize::MAX,
    ensures
        op.op_type@ == "arith.constant"@,
        op.result matches Some(x) && x@ == res@,
        op.operands@.len() == 0,
        attr_lookup(op.attributes@, "value"@) matches Some(Attr::FloatList(v)) && {
            &&& v@.len() == m * m
            &&& forall|r: int, k: int|
                0 <= r < m && 0 <= k < m ==> #[trigger] v@[r * m + k]@ == causal_entry(r, k, ninf@)
        },
        attr_lookup(op.attributes@, "shape"@) matches Some(Attr::IntList(s)) && s@ == seq![m, m],
{
    let mut vals: Vec<String> = Vec::new();
    let mut r: i64 = 0;
    while r < m
        invariant
            0 <= r <= m,
            m * m <= usize::MAX,
            vals@.len() == r * m,
            forall|a: int, k: int|
                0 <= a < r && 0 <= k < m ==> #[trigger] vals@[a * m + k]@ == causal_entry(a, k, ninf@),
        decreases m - r,
    {
        let mut k: i64 = 0;
        while k < m
            invariant
                0 <= r < m,
                0 <= k <= m,
                m * m <= usize::MAX,
                vals@.len() == r * m + k,
                forall|a: int, c: int|
                    0 <= a < r && 0 <= c < m ==> #[trigger] vals@[a * m + c]@ == causal_entry(a, c, ninf@),
                forall|c: int| 0 <= c < k ==> #[trigger] vals@[r * m + c]@ == causal_entry(r as int, c, ninf@),
            decreases m - k,
        {
            proof {
                assert(r * m + k < m * m) by (nonlinear_arith)
                    requires
                        0 <= r < m,
                        0 <= k < m,
                ;
            }
            if k <= r {
                vals.push(String::from_str("0.0"));
            } else {
                vals.push(String::from_str(ninf));
            }
            proof {
                reveal_strlit("0.0");
                assert forall|a: int, c: int| 0 <= a < r && 0 <= c < m implies #[trigger] vals@[a * m + c]@
                    == causal_entry(a, c, ninf@) by {
                    assert(a * m + c < r * m) by (nonlinear_arith)
                        requires
                            0 <= a < r,
                            0 <= c < m,
                    ;
                }
            }
            k = k + 1;
        }
        proof {
            assert(r * m + m == (r + 1) * m) by (nonlinear_arith);
            assert forall|a: int, c: int| 0 <= a < r + 1 && 0 <= c < m implies #[trigger] vals@[a * m + c]@
                == causal_entry(a, c, ninf@) by {
                if a < r {
                } else {
                    assert(a == r);
                }
            }
        }
        r = r + 1;
    }
    proof {
        reveal_strlit("value");
        reveal_strlit("shape");
        reveal_strlit("dtype");
        reveal_strlit("is_tensor");
        reveal_strlit("dense_list");
    }
    let op0 = Operation::new(Some(res), "arith.constant", &[]).with_attr("is_tensor", Attr::Bool(true)).with_attr(
        "dense_list",
        Attr::Bool(true),
    );
    let op1 = op0.with_attr("shape", Attr::IntList(dims2(m, m)));
    let op2 = op1.with_attr("dtype", Attr::Str(String::from_str(dtype)));
    assert("dtype"@ != "shape"@) by {
        assert("dtype"@[0] != "shape"@[0]);
    }
    let op = op2.with_attr("value", Attr::FloatList(vals));
    assert("value"@ != "shape"@) by {
        assert("value"@[0] != "shape"@[0]);
    }
    assert(attr_lookup(op.attributes@, "shape"@) == attr_lookup(op1.attributes@, "shape"@));
    op
}

/// Op types of the prologue: the zero index, scale, mask and zero
/// constants, then the per-head column arithmetic (`hpid` from the core's
/// tile id, `qcol = hpid * hdc`, `kvcol = (hpid / gqac) * hdc`).
pub open spec fn prologue_types() -> Seq<Seq<char>> {
    seq![
        "arith.constant"@, "arith.constant"@, "arith.constant"@, "arith.constant"@,
        "ktdp.get_compute_tile_id"@, "arith.constant"@, "arith.constant"@, "arith.muli"@,
        "arith.divui"@, "arith.muli"@
    ]
}

/// Op types of the seven memory views (Q, O, mask, Kc, Kd, Vc, Vd).
pub open spec fn view_types() -> Seq<Seq<char>> {
    seq![
        "ktdp.construct_memory_view"@, "ktdp.construct_memory_view"@, "ktdp.construct_memory_view"@,
        "ktdp.construct_memory_view"@, "ktdp.construct_memory_view"@, "ktdp.construct_memory_view"@,
        "ktdp.construct_memory_view"@
    ]
}

/// Op types of the Q and mask loads and the context block: Kc load,
/// transpose, `Q @ Kc^T`, scale, broadcast mask, add, row max.
pub open spec fn context_types() -> Seq<Seq<char>> {
    seq![
        "ktdp.construct_access_tile"@, "ktdp.load"@, "ktdp.construct_access_tile"@, "ktdp.load"@,
        "ktdp.construct_access_tile"@, "ktdp.load"@, "tensor.empty"@, "linalg.transpose"@,
        "tensor.empty"@, "linalg.matmul"@, "tensor.splat"@, "arith.mulf"@, "tensor.empty"@,
        "linalg.broadcast"@, "arith.addf"@, "tensor.splat"@, "linalg.reduce"@
    ]
}

/// Op types of the diagonal block: Kd load, transpose, `Q @ Kd^T`, scale,
/// causal mask, add, row max.
pub open spec fn diagonal_types() -> Seq<Seq<char>> {
    seq![
        "ktdp.construct_access_tile"@, "ktdp.load"@, "tensor.empty"@, "linalg.transpose"@,
        "tensor.empty"@, "linalg.matmul"@, "tensor.splat"@, "arith.mulf"@, "arith.constant"@,
        "arith.addf"@, "tensor.splat"@, "linalg.reduce"@
    ]
}

/// Op types of the online softmax over both blocks: global max, shifted
/// exponentials, row sums, total, normalised weights.
pub open spec fn combine_types() -> Seq<Seq<char>> {
    seq![
        "arith.maximumf"@, "tensor.reshape"@, "tensor.empty"@, "linalg.broadcast"@, "arith.subf"@,
        "math.exp"@, "tensor.reshape"@, "tensor.empty"@, "linalg.broadcast"@, "arith.subf"@,
        "math.exp"@, "tensor.splat"@, "linalg.reduce"@, "tensor.splat"@, "linalg.reduce"@,
        "arith.addf"@, "tensor.reshape"@, "tensor.empty"@, "linalg.broadcast"@, "arith.divf"@,
        "tensor.reshape"@, "tensor.empty"@, "linalg.broadcast"@, "arith.divf"@
    ]
}

/// Op types of the epilogue: Vc and Vd loads, the two AV matmuls, their sum,
/// the one whole-row store, and the return.
pub open spec fn epilogue_types() -> Seq<Seq<char>> {
    seq![
        "ktdp.construct_access_tile"@, "ktdp.load"@, "ktdp.construct_access_tile"@, "ktdp.load"@,
        "tensor.empty"@, "linalg.matmul"@, "tensor.empty"@, "linalg.matmul"@, "arith.addf"@,
        "ktdp.construct_access_tile"@, "ktdp.store"@, "func.return"@
    ]
}

/// The op types of the re-rolled body, phase by phase.
pub open spec fn rerolled_types() -> Seq<Seq<char>> {
    prologue_types() + view_types() + context_types() + diagonal_types() + combine_types() + epilogue_types()
}

/// Argument names and types, as character sequences.
pub open spec fn args_view(args: Seq<(String, String)>) -> Seq<(Seq<char>, Seq<char>)> {
    args.map_values(|p: (String, String)| (p.0@, p.1@))
}

fn index_arg(name: &String) -> (p: (String, String))
    ensures
        p.0@ == name@,
        p.1@ == "index"@,
{
    (name.clone(), String::from_str("index"))
}

/// The names the prologue defines: `(c0, scale, ninf, zero, qcol, kvcol)`.
struct Prologue {
    c0: String,
    scale_c: String,
    ninf_c: String,
    zero_c: String,
    qcol: String,
    kvcol: String,
}

#[verifier::rlimit(80)]
fn emit_prologue(g: &mut NameGen, ops: &mut Vec<Operation>, isl: &HeadAttnIsland) -> (p: Prologue)
    requires
        old(g).n < 900,
    ensures
        final(g).n == old(g).n + 10,
        op_types(final(ops)@) == op_types(old(ops)@) + prologue_types(),
        extends(old(ops)@, final(ops)@, 10),
        wired(final(ops)@, old(ops)@.len() + 0int, seq![]),
        wired(final(ops)@, old(ops)@.len() + 1int, seq![]),
        wired(final(ops)@, old(ops)@.len() + 2int, seq![]),
        wired(final(ops)@, old(ops)@.len() + 3int, seq![]),
        wired(final(ops)@, old(ops)@.len() + 4int, seq![]),
        wired(final(ops)@, old(ops)@.len() + 5int, seq![]),
        wired(final(ops)@, old(ops)@.len() + 6int, seq![]),
        wired(final(ops)@, old(ops)@.len() + 7int, seq![rn(final(ops)@, old(ops)@.len() + 4int), rn(final(ops)@, old(ops)@.len() + 5int)]),
        wired(final(ops)@, old(ops)@.len() + 8int, seq![rn(final(ops)@, old(ops)@.len() + 4int), rn(final(ops)@, old(ops)@.len() + 6int)]),
        wired(final(ops)@, old(ops)@.len() + 9int, seq![rn(final(ops)@, old(ops)@.len() + 8int), rn(final(ops)@, old(ops)@.len() + 5int)]),
        p.c0@ == rn(final(ops)@, old(ops)@.len() + 0int),
        p.scale_c@ == rn(final(ops)@, old(ops)@.len() + 1int),
        p.ninf_c@ == rn(final(ops)@, old(ops)@.len() + 2int),
        p.zero_c@ == rn(final(ops)@, old(ops)@.len() + 3int),
        p.qcol@ == rn(final(ops)@, old(ops)@.len() + 7int),
        p.kvcol@ == rn(final(ops)@, old(ops)@.len() + 9int),
{
    let ghost start = op_types(ops@);
    let c0 = g.next("c0");
    push_op(ops, const_index(c0.as_str(), 0));
    let scale_c = g.next("scl");
    push_op(ops, const_f(scale_c.as_str(), isl.scale.as_str()));
    let ninf_c = g.next("ninf");
    push_op(ops, const_f(ninf_c.as_str(), isl.ninf.as_str()));
    let zero_c = g.next("zero");
    push_op(ops, const_f(zero_c.as_str(), "0.0"));
    let hpid = g.next("hpid");
    push_op(ops, Operation::new(Some(hpid.as_str()), "ktdp.get_compute_tile_id", &[]));
    let hdc = g.next("hdc");
    push_op(ops, const_index(hdc.as_str(), isl.hdc));
    let gqac = g.next("gqac");
    push_op(ops, const_index(gqac.as_str(), isl.gqac));
    let qcol = g.next("qcol");
    push_op(ops, Operation::new(Some(qcol.as_str()), "arith.muli", &[hpid.as_str(), hdc.as_str()]));
    let kvh = g.next("kvh");
    push_op(ops, Operation::new(Some(kvh.as_str()), "arith.divui", &[hpid.as_str(), gqac.as_str()]));
    let kvcol = g.next("kvcol");
    push_op(ops, Operation::new(Some(kvcol.as_str()), "arith.muli", &[kvh.as_str(), hdc.as_str()]));
    assert(op_types(ops@) =~= start + prologue_types());
    Prologue { c0, scale_c, ninf_c, zero_c, qcol, kvcol }
}

/// The seven view names: `(q, o, mask, kc, kd, vc, vd)`.
struct Views {
    q: String,
    o: String,
    mask: String,
    kc: String,
    kd: String,
    vc: String,
    vd: String,
}

fn emit_views(g: &mut NameGen, ops: &mut Vec<Operation>, isl: &HeadAttnIsland) -> (v: Views)
    requires
        old(g).n < 900,
    ensures
        final(g).n == old(g).n + 7,
        op_types(final(ops)@) == op_types(old(ops)@) + view_types(),
        extends(old(ops)@, final(ops)@, 7),
        wired(final(ops)@, old(ops)@.len() + 0int, seq![isl.q_arg@]),
        wired(final(ops)@, old(ops)@.len() + 1int, seq![isl.o_arg@]),
        wired(final(ops)@, old(ops)@.len() + 2int, seq![isl.mask_arg@]),
        wired(final(ops)@, old(ops)@.len() + 3int, seq![isl.kc_arg@]),
        wired(final(ops)@, old(ops)@.len() + 4int, seq![isl.kd_arg@]),
        wired(final(ops)@, old(ops)@.len() + 5int, seq![isl.vc_arg@]),
        wired(final(ops)@, old(ops)@.len() + 6int, seq![isl.vd_arg@]),
        v.q@ == rn(final(ops)@, old(ops)@.len() + 0int),
        v.o@ == rn(final(ops)@, old(ops)@.len() + 1int),
        v.mask@ == rn(final(ops)@, old(ops)@.len() + 2int),
        v.kc@ == rn(final(ops)@, old(ops)@.len() + 3int),
        v.kd@ == rn(final(ops)@, old(ops)@.len() + 4int),
        v.vc@ == rn(final(ops)@, old(ops)@.len() + 5int),
        v.vd@ == rn(final(ops)@, old(ops)@.len() + 6int),
{
    let ghost start = op_types(ops@);
    let dt = isl.dtype.as_str();
    let m = isl.m;
    let cap = isl.cap;
    let q = g.next("qv");
    push_op(ops, mk_view(q.as_str(), isl.q_arg.as_str(), m, isl.q_cols, dt));
    let o = g.next("ov");
    push_op(ops, mk_view(o.as_str(), isl.o_arg.as_str(), m, isl.q_cols, dt));
    let mask = g.next("mv");
    push_op(ops, mk_view(mask.as_str(), isl.mask_arg.as_str(), 1, cap, dt));
    let kc = g.next("kcv");
    push_op(ops, mk_view(kc.as_str(), isl.kc_arg.as_str(), cap, isl.kv_cols, dt));
    let kd = g.next("kdv");
    push_op(ops, mk_view(kd.as_str(), isl.kd_arg.as_str(), m, isl.kv_cols, dt));
    let vc = g.next("vcv");
    push_op(ops, mk_view(vc.as_str(), isl.vc_arg.as_str(), cap, isl.kv_cols, dt));
    let vd = g.next("vdv");
    push_op(ops, mk_view(vd.as_str(), isl.vd_arg.as_str(), m, isl.kv_cols, dt));
    assert(op_types(ops@) =~= start + view_types());
    Views { q, o, mask, kc, kd, vc, vd }
}

/// Q and mask loads, then the context block; returns `(q, sc, mc)`.
#[verifier::rlimit(80)]
fn emit_context(
    g: &mut NameGen,
    ops: &mut Vec<Operation>,
    isl: &HeadAttnIsland,
    p: &Prologue,
    v: &Views,
) -> (r: (String, String, String))
    requires
        old(g).n < 900,
    ensures
        final(g).n == old(g).n + 17,
        op_types(final(ops)@) == op_types(old(ops)@) + context_types(),
        extends(old(ops)@, final(ops)@, 17),
        wired(final(ops)@, old(ops)@.len() + 0int, seq![v.q@, p.c0@, p.qcol@]),
        wired(final(ops)@, old(ops)@.len() + 1int, seq![rn(final(ops)@, old(ops)@.len() + 0int)]),
        wired(final(ops)@, old(ops)@.len() + 2int, seq![v.mask@, p.c0@, p.c0@]),
        wired(final(ops)@, old(ops)@.len() + 3int, seq![rn(final(ops)@, old(ops)@.len() + 2int)]),
        wired(final(ops)@, old(ops)@.len() + 4int, seq![v.kc@, p.c0@, p.kvcol@]),
        wired(final(ops)@, old(ops)@.len() + 5int, seq![rn(final(ops)@, old(ops)@.len() + 4int)]),
        wired(final(ops)@, old(ops)@.len() + 6int, seq![]),
        wired(final(ops)@, old(ops)@.len() + 7int, seq![rn(final(ops)@, old(ops)@.len() + 5int), rn(final(ops)@, old(ops)@.len() + 6int)]),
        wired(final(ops)@, old(ops)@.len() + 8int, seq![]),
        wired(final(ops)@, old(ops)@.len() + 9int, seq![rn(final(ops)@, old(ops)@.len() + 1int), rn(final(ops)@, old(ops)@.len() + 7int), rn(final(ops)@, old(ops)@.len() + 8int)]),
        wired(final(ops)@, old(ops)@.len() + 10int, seq![p.scale_c@]),
        wired(final(ops)@, old(ops)@.len() + 11int, seq![rn(final(ops)@, old(ops)@.len() + 9int), rn(final(ops)@, old(ops)@.len() + 10int)]),
        wired(final(ops)@, old(ops)@.len() + 12int, seq![]),
        wired(final(ops)@, old(ops)@.len() + 13int, seq![rn(final(ops)@, old(ops)@.len() + 3int), rn(final(ops)@, old(ops)@.len() + 12int)]),
        wired(final(ops)@, old(ops)@.len() + 14int, seq![rn(final(ops)@, old(ops)@.len() + 11int), rn(final(ops)@, old(ops)@.len() + 13int)]),
        wired(final(ops)@, old(ops)@.len() + 15int, seq![p.ninf_c@]),
        wired(final(ops)@, old(ops)@.len() + 16int, seq![rn(final(ops)@, old(ops)@.len() + 14int)]),
        r.0@ == rn(final(ops)@, old(ops)@.len() + 1int),
        r.1@ == rn(final(ops)@, old(ops)@.len() + 14int),
        r.2@ == rn(final(ops)@, old(ops)@.len() + 16int),
{
    let ghost start = op_types(ops@);
    let dt = isl.dtype.as_str();
    let (m, d, cap) = (isl.m, isl.d, isl.cap);
    let q = block_load(g, ops, v.q.as_str(), p.c0.as_str(), p.qcol.as_str(), m, d);
    let mask = block_load(g, ops, v.mask.as_str(), p.c0.as_str(), p.c0.as_str(), 1, cap);
    let kc = block_load(g, ops, v.kc.as_str(), p.c0.as_str(), p.kvcol.as_str(), cap, d);
    let kct = mk_transpose(g, ops, kc.as_str(), cap, d, dt);
    let sc_raw = mk_matmul(g, ops, q.as_str(), kct.as_str(), m, cap, dt);
    let sc_scl = g.next("scscl");
    push_op(ops, mk_splat(sc_scl.as_str(), p.scale_c.as_str(), dims2(m, cap), dt));
    let sc_scaled = g.next("scscaled");
    push_op(ops, Operation::new(Some(sc_scaled.as_str()), "arith.mulf", &[sc_raw.as_str(), sc_scl.as_str()]));
    let mask_init = g.next("mki");
    push_op(ops, mk_empty(mask_init.as_str(), dims2(m, cap), dt));
    let mask_b = g.next("mkb");
    push_op(
        ops,
        Operation::new(Some(mask_b.as_str()), "linalg.broadcast", &[mask.as_str(), mask_init.as_str()]).with_attr(
            "dimensions",
            Attr::IntList(Vec::new()),
        ),
    );
    let sc = g.next("sc");
    push_op(ops, Operation::new(Some(sc.as_str()), "arith.addf", &[sc_scaled.as_str(), mask_b.as_str()]));
    let mc_init = g.next("mci");
    push_op(ops, mk_splat(mc_init.as_str(), p.ninf_c.as_str(), dims1(m), dt));
    let mc = g.next("mc");
    push_op(ops, mk_reduce(mc.as_str(), sc.as_str(), mc_init.as_str(), "arith.maximumf"));
    assert(op_types(ops@) =~= start + context_types());
    (q, sc, mc)
}

/// The diagonal block; returns `(sd, md)`.
#[verifier::rlimit(80)]
fn emit_diagonal(
    g: &mut NameGen,
    ops: &mut Vec<Operation>,
    isl: &HeadAttnIsland,
    p: &Prologue,
    v: &Views,
    q: &String,
) -> (r: (String, String))
    requires
        old(g).n < 900,
        0 <= isl.m,
        isl.m * isl.m <= usize::MAX,
    ensures
        final(g).n == old(g).n + 12,
        op_types(final(ops)@) == op_types(old(ops)@) + diagonal_types(),
        extends(old(ops)@, final(ops)@, 12),
        wired(final(ops)@, old(ops)@.len() + 0int, seq![v.kd@, p.c0@, p.kvcol@]),
        wired(final(ops)@, old(ops)@.len() + 1int, seq![rn(final(ops)@, old(ops)@.len() + 0int)]),
        wired(final(ops)@, old(ops)@.len() + 2int, seq![]),
        wired(final(ops)@, old(ops)@.len() + 3int, seq![rn(final(ops)@, old(ops)@.len() + 1int), rn(final(ops)@, old(ops)@.len() + 2int)]),
        wired(final(ops)@, old(ops)@.len() + 4int, seq![]),
        wired(final(ops)@, old(ops)@.len() + 5int, seq![q@, rn(final(ops)@, old(ops)@.len() + 3int), rn(final(ops)@, old(ops)@.len() + 4int)]),
        wired(final(ops)@, old(ops)@.len() + 6int, seq![p.scale_c@]),
        wired(final(ops)@, old(ops)@.len() + 7int, seq![rn(final(ops)@, old(ops)@.len() + 5int), rn(final(ops)@, old(ops)@.len() + 6int)]),
        wired(final(ops)@, old(ops)@.len() + 8int, seq![]),
        wired(final(ops)@, old(ops)@.len() + 9int, seq![rn(final(ops)@, old(ops)@.len() + 7int), rn(final(ops)@, old(ops)@.len() + 8int)]),
        wired(final(ops)@, old(ops)@.len() + 10int, seq![p.ninf_c@]),
        wired(final(ops)@, old(ops)@.len() + 11int, seq![rn(final(ops)@, old(ops)@.len() + 9int)]),
        r.0@ == rn(final(ops)@, old(ops)@.len() + 9int),
        r.1@ == rn(final(ops)@, old(ops)@.len() + 11int),
{
    let ghost start = op_types(ops@);
    let dt = isl.dtype.as_str();
    let (m, d) = (isl.m, isl.d);
    let kd = block_load(g, ops, v.kd.as_str(), p.c0.as_str(), p.kvcol.as_str(), m, d);
    let kdt = mk_transpose(g, ops, kd.as_str(), m, d, dt);
    let sd_raw = mk_matmul(g, ops, q.as_str(), kdt.as_str(), m, m, dt);
    let sd_scl = g.next("sdscl");
    push_op(ops, mk_splat(sd_scl.as_str(), p.scale_c.as_str(), dims2(m, m), dt));
    let sd_scaled = g.next("sdscaled");
    push_op(ops, Operation::new(Some(sd_scaled.as_str()), "arith.mulf", &[sd_raw.as_str(), sd_scl.as_str()]));
    let tri = g.next("tri");
    push_op(ops, causal_mask_mm(tri.as_str(), m, isl.ninf.as_str(), dt));
    let sd = g.next("sd");
    push_op(ops, Operation::new(Some(sd.as_str()), "arith.addf", &[sd_scaled.as_str(), tri.as_str()]));
    let md_init = g.next("mdi");
    push_op(ops, mk_splat(md_init.as_str(), p.ninf_c.as_str(), dims1(m), dt));
    let md = g.next("md");
    push_op(ops, mk_reduce(md.as_str(), sd.as_str(), md_init.as_str(), "arith.maximumf"));
    assert(op_types(ops@) =~= start + diagonal_types());
    (sd, md)
}

/// Online softmax over both blocks; returns the weights `(wc, wd)`.
#[verifier::rlimit(80)]
fn emit_combine(
    g: &mut NameGen,
    ops: &mut Vec<Operation>,
    isl: &HeadAttnIsland,
    p: &Prologue,
    sc: &String,
    mc: &String,
    sd: &String,
    md: &String,
) -> (r: (String, String))
    requires
        old(g).n < 900,
    ensures
        final(g).n == old(g).n + 24,
        op_types(final(ops)@) == op_types(old(ops)@) + combine_types(),
        extends(old(ops)@, final(ops)@, 24),
        wired(final(ops)@, old(ops)@.len() + 0int, seq![mc@, md@]),
        wired(final(ops)@, old(ops)@.len() + 1int, seq![rn(final(ops)@, old(ops)@.len() + 0int)]),
        wired(final(ops)@, old(ops)@.len() + 2int, seq![]),
        wired(final(ops)@, old(ops)@.len() + 3int, seq![rn(final(ops)@, old(ops)@.len() + 1int), rn(final(ops)@, old(ops)@.len() + 2int)]),
        wired(final(ops)@, old(ops)@.len() + 4int, seq![sc@, rn(final(ops)@, old(ops)@.len() + 3int)]),
        wired(final(ops)@, old(ops)@.len() + 5int, seq![rn(final(ops)@, old(ops)@.len() + 4int)]),
        wired(final(ops)@, old(ops)@.len() + 6int, seq![rn(final(ops)@, old(ops)@.len() + 0int)]),
        wired(final(ops)@, old(ops)@.len() + 7int, seq![]),
        wired(final(ops)@, old(ops)@.len() + 8int, seq![rn(final(ops)@, old(ops)@.len() + 6int), rn(final(ops)@, old(ops)@.len() + 7int)]),
        wired(final(ops)@, old(ops)@.len() + 9int, seq![sd@, rn(final(ops)@, old(ops)@.len() + 8int)]),
        wired(final(ops)@, old(ops)@.len() + 10int, seq![rn(final(ops)@, old(ops)@.len() + 9int)]),
        wired(final(ops)@, old(ops)@.len() + 11int, seq![p.zero_c@]),
        wired(final(ops)@, old(ops)@.len() + 12int, seq![rn(final(ops)@, old(ops)@.len() + 5int)]),
        wired(final(ops)@, old(ops)@.len() + 13int, seq![p.zero_c@]),
        wired(final(ops)@, old(ops)@.len() + 14int, seq![rn(final(ops)@, old(ops)@.len() + 10int)]),
        wired(final(ops)@, old(ops)@.len() + 15int, seq![rn(final(ops)@, old(ops)@.len() + 12int), rn(final(ops)@, old(ops)@.len() + 14int)]),
        wired(final(ops)@, old(ops)@.len() + 16int, seq![rn(final(ops)@, old(ops)@.len() + 15int)]),
        wired(final(ops)@, old(ops)@.len() + 17int, seq![]),
        wired(final(ops)@, old(ops)@.len() + 18int, seq![rn(final(ops)@, old(ops)@.len() + 16int), rn(final(ops)@, old(ops)@.len() + 17int)]),
        wired(final(ops)@, old(ops)@.len() + 19int, seq![rn(final(ops)@, old(ops)@.len() + 5int), rn(final(ops)@, old(ops)@.len() + 18int)]),
        wired(final(ops)@, old(ops)@.len() + 20int, seq![rn(final(ops)@, old(ops)@.len() + 15int)]),
        wired(final(ops)@, old(ops)@.len() + 21int, seq![]),
        wired(final(ops)@, old(ops)@.len() + 22int, seq![rn(final(ops)@, old(ops)@.len() + 20int), rn(final(ops)@, old(ops)@.len() + 21int)]),
        wired(final(ops)@, old(ops)@.len() + 23int, seq![rn(final(ops)@, old(ops)@.len() + 10int), rn(final(ops)@, old(ops)@.len() + 22int)]),
        r.0@ == rn(final(ops)@, old(ops)@.len() + 19int),
        r.1@ == rn(final(ops)@, old(ops)@.len() + 23int),
{
    let ghost start = op_types(ops@);
    let dt = isl.dtype.as_str();
    let (m, cap) = (isl.m, isl.cap);
    let gm = g.next("gm");
    push_op(ops, Operation::new(Some(gm.as_str()), "arith.maximumf", &[mc.as_str(), md.as_str()]));
    let gm_bc = broadcast_row_to(g, ops, gm.as_str(), m, cap, dt);
    let shc = g.next("shc");
    push_op(ops, Operation::new(Some(shc.as_str()), "arith.subf", &[sc.as_str(), gm_bc.as_str()]));
    let pc = g.next("pc");
    push_op(ops, Operation::new(Some(pc.as_str()), "math.exp", &[shc.as_str()]));
    let gm_bd = broadcast_row_to(g, ops, gm.as_str(), m, m, dt);
    let shd = g.next("shd");
    push_op(ops, Operation::new(Some(shd.as_str()), "arith.subf", &[sd.as_str(), gm_bd.as_str()]));
    let pd = g.next("pd");
    push_op(ops, Operation::new(Some(pd.as_str()), "math.exp", &[shd.as_str()]));
    let scs_init = g.next("scsi");
    push_op(ops, mk_splat(scs_init.as_str(), p.zero_c.as_str(), dims1(m), dt));
    let scs = g.next("scs");
    push_op(ops, mk_reduce(scs.as_str(), pc.as_str(), scs_init.as_str(), "arith.addf"));
    let sds_init = g.next("sdsi");
    push_op(ops, mk_splat(sds_init.as_str(), p.zero_c.as_str(), dims1(m), dt));
    let sds = g.next("sds");
    push_op(ops, mk_reduce(sds.as_str(), pd.as_str(), sds_init.as_str(), "arith.addf"));
    let gs = g.next("gs");
    push_op(ops, Operation::new(Some(gs.as_str()), "arith.addf", &[scs.as_str(), sds.as_str()]));
    let gs_bc = broadcast_row_to(g, ops, gs.as_str(), m, cap, dt);
    let wc = g.next("wc");
    push_op(ops, Operation::new(Some(wc.as_str()), "arith.divf", &[pc.as_str(), gs_bc.as_str()]));
    let gs_bd = broadcast_row_to(g, ops, gs.as_str(), m, m, dt);
    let wd = g.next("wd");
    push_op(ops, Operation::new(Some(wd.as_str()), "arith.divf", &[pd.as_str(), gs_bd.as_str()]));
    assert(op_types(ops@) =~= start + combine_types());
    (wc, wd)
}

/// AV matmuls, their sum, the whole-row store at `[0, qcol]`, and the return.
#[verifier::rlimit(80)]
fn emit_epilogue(
    g: &mut NameGen,
    ops: &mut Vec<Operation>,
    isl: &HeadAttnIsland,
    p: &Prologue,
    v: &Views,
    wc: &String,
    wd: &String,
)
    requires
        old(g).n < 900,
    ensures
        final(g).n == old(g).n + 10,
        op_types(final(ops)@) == op_types(old(ops)@) + epilogue_types(),
        extends(old(ops)@, final(ops)@, 12),
        wired(final(ops)@, old(ops)@.len() + 0int, seq![v.vc@, p.c0@, p.kvcol@]),
        wired(final(ops)@, old(ops)@.len() + 1int, seq![rn(final(ops)@, old(ops)@.len() + 0int)]),
        wired(final(ops)@, old(ops)@.len() + 2int, seq![v.vd@, p.c0@, p.kvcol@]),
        wired(final(ops)@, old(ops)@.len() + 3int, seq![rn(final(ops)@, old(ops)@.len() + 2int)]),
        wired(final(ops)@, old(ops)@.len() + 4int, seq![]),
        wired(final(ops)@, old(ops)@.len() + 5int, seq![wc@, rn(final(ops)@, old(ops)@.len() + 1int), rn(final(ops)@, old(ops)@.len() + 4int)]),
        wired(final(ops)@, old(ops)@.len() + 6int, seq![]),
        wired(final(ops)@, old(ops)@.len() + 7int, seq![wd@, rn(final(ops)@, old(ops)@.len() + 3int), rn(final(ops)@, old(ops)@.len() + 6int)]),
        wired(final(ops)@, old(ops)@.len() + 8int, seq![rn(final(ops)@, old(ops)@.len() + 5int), rn(final(ops)@, old(ops)@.len() + 7int)]),
        wired(final(ops)@, old(ops)@.len() + 9int, seq![v.o@, p.c0@, p.qcol@]),
        wired_void(final(ops)@, old(ops)@.len() + 10int, seq![rn(final(ops)@, old(ops)@.len() + 8int), rn(final(ops)@, old(ops)@.len() + 9int)]),
        wired_void(final(ops)@, old(ops)@.len() + 11int, seq![]),
{
    let ghost start = op_types(ops@);
    let dt = isl.dtype.as_str();
    let (m, d, cap) = (isl.m, isl.d, isl.cap);
    let vc = block_load(g, ops, v.vc.as_str(), p.c0.as_str(), p.kvcol.as_str(), cap, d);
    let vd = block_load(g, ops, v.vd.as_str(), p.c0.as_str(), p.kvcol.as_str(), m, d);
    let ovc = mk_matmul(g, ops, wc.as_str(), vc.as_str(), m, d, dt);
    let ovd = mk_matmul(g, ops, wd.as_str(), vd.as_str(), m, d, dt);
    let o = g.next("o");
    push_op(ops, Operation::new(Some(o.as_str()), "arith.addf", &[ovc.as_str(), ovd.as_str()]));
    let o_at = g.next("oat");
    push_op(
        ops,
        Operation::new(Some(o_at.as_str()), "ktdp.construct_access_tile", &[v.o.as_str(), p.c0.as_str(), p.qcol.as_str()])
            .with_attr("shape", Attr::IntList(dims2(m, d))),
    );
    push_op(ops, Operation::new(None, "ktdp.store", &[o.as_str(), o_at.as_str()]));
    push_op(ops, Operation::new(None, "func.return", &[]));
    assert(op_types(ops@) =~= start + epilogue_types());
}

/// The dataflow of the re-rolled body, op by op: which earlier result (or
/// view pointer argument) feeds each operand. Ops 0-9 set up constants and
/// the head's column offsets, 10-16 the seven HBM views, 17-33 the context
/// block's scores and row maxima, 34-45 the diagonal block's, 46-69 the
/// shared online softmax and the two weight tiles, and 70-81 the two
/// weight-times-values products, their sum, its store and the return.
pub open spec fn rerolled_dataflow(ops: Seq<Operation>, isl: HeadAttnIsland) -> bool {
    &&& ops.len() == 82
    &&& wired(ops, 0, seq![])
    &&& wired(ops, 1, seq![])
    &&& wired(ops, 2, seq![])
    &&& wired(ops, 3, seq![])
    &&& wired(ops, 4, seq![])
    &&& wired(ops, 5, seq![])
    &&& wired(ops, 6, seq![])
    &&& wired(ops, 7, seq![rn(ops, 4), rn(ops, 5)])
    &&& wired(ops, 8, seq![rn(ops, 4), rn(ops, 6)])
    &&& wired(ops, 9, seq![rn(ops, 8), rn(ops, 5)])
    &&& wired(ops, 10, seq![isl.q_arg@])
    &&& wired(ops, 11, seq![isl.o_arg@])
    &&& wired(ops, 12, seq![isl.mask_arg@])
    &&& wired(ops, 13, seq![isl.kc_arg@])
    &&& wired(ops, 14, seq![isl.kd_arg@])
    &&& wired(ops, 15, seq![isl.vc_arg@])
    &&& wired(ops, 16, seq![isl.vd_arg@])
    &&& wired(ops, 17, seq![rn(ops, 10), rn(ops, 0), rn(ops, 7)])
    &&& wired(ops, 18, seq![rn(ops, 17)])
    &&& wired(ops, 19, seq![rn(ops, 12), rn(ops, 0), rn(ops, 0)])
    &&& wired(ops, 20, seq![rn(ops, 19)])
    &&& wired(ops, 21, seq![rn(ops, 13), rn(ops, 0), rn(ops, 9)])
    &&& wired(ops, 22, seq![rn(ops, 21)])
    &&& wired(ops, 23, seq![])
    &&& wired(ops, 24, seq![rn(ops, 22), rn(ops, 23)])
    &&& wired(ops, 25, seq![])
    &&& wired(ops, 26, seq![rn(ops, 18), rn(ops, 24), rn(ops, 25)])
    &&& wired(ops, 27, seq![rn(ops, 1)])
    &&& wired(ops, 28, seq![rn(ops, 26), rn(ops, 27)])
    &&& wired(ops, 29, seq![])
    &&& wired(ops, 30, seq![rn(ops, 20), rn(ops, 29)])
    &&& wired(ops, 31, seq![rn(ops, 28), rn(ops, 30)])
    &&& wired(ops, 32, seq![rn(ops, 2)])
    &&& wired(ops, 33, seq![rn(ops, 31)])
    &&& wired(ops, 34, seq![rn(ops, 14), rn(ops, 0), rn(ops, 9)])
    &&& wired(ops, 35, seq![rn(ops, 34)])
    &&& wired(ops, 36, seq![])
    &&& wired(ops, 37, seq![rn(ops, 35), rn(ops, 36)])
    &&& wired(ops, 38, seq![])
    &&& wired(ops, 39, seq![rn(ops, 18), rn(ops, 37), rn(ops, 38)])
    &&& wired(ops, 40, seq![rn(ops, 1)])
    &&& wired(ops, 41, seq![rn(ops, 39), rn(ops, 40)])
    &&& wired(ops, 42, seq![])
    &&& wired(ops, 43, seq![rn(ops, 41), rn(ops, 42)])
    &&& wired(ops, 44, seq![rn(ops, 2)])
    &&& wired(ops, 45, seq![rn(ops, 43)])
    &&& wired(ops, 46, seq![rn(ops, 33), rn(ops, 45)])
    &&& wired(ops, 47, seq![rn(ops, 46)])
    &&& wired(ops, 48, seq![])
    &&& wired(ops, 49, seq![rn(ops, 47), rn(ops, 48)])
    &&& wired(ops, 50, seq![rn(ops, 31), rn(ops, 49)])
    &&& wired(ops, 51, seq![rn(ops, 50)])
    &&& wired(ops, 52, seq![rn(ops, 46)])
    &&& wired(ops, 53, seq![])
    &&& wired(ops, 54, seq![rn(ops, 52), rn(ops, 53)])
    &&& wired(ops, 55, seq![rn(ops, 43), rn(ops, 54)])
    &&& wired(ops, 56, seq![rn(ops, 55)])
    &&& wired(ops, 57, seq![rn(ops, 3)])
    &&& wired(ops, 58, seq![rn(ops, 51)])
    &&& wired(ops, 59, seq![rn(ops, 3)])
    &&& wired(ops, 60, seq![rn(ops, 56)])
    &&& wired(ops, 61, seq![rn(ops, 58), rn(ops, 60)])
    &&& wired(ops, 62, seq![rn(ops, 61)])
    &&& wired(ops, 63, seq![])
    &&& wired(ops, 64, seq![rn(ops, 62), rn(ops, 63)])
    &&& wired(ops, 65, seq![rn(ops, 51), rn(ops, 64)])
    &&& wired(ops, 66, seq![rn(ops, 61)])
    &&& wired(ops, 67, seq![])
    &&& wired(ops, 68, seq![rn(ops, 66), rn(ops, 67)])
    &&& wired(ops, 69, seq![rn(ops, 56), rn(ops, 68)])
    &&& wired(ops, 70, seq![rn(ops, 15), rn(ops, 0), rn(ops, 9)])
    &&& wired(ops, 71, seq![rn(ops, 70)])
    &&& wired(ops, 72, seq![rn(ops, 16), rn(ops, 0), rn(ops, 9)])
    &&& wired(ops, 73, seq![rn(ops, 72)])
    &&& wired(ops, 74, seq![])
    &&& wired(ops, 75, seq![rn(ops, 65), rn(ops, 71), rn(ops, 74)])
    &&& wired(ops, 76, seq![])
    &&& wired(ops, 77, seq![rn(ops, 69), rn(ops, 73), rn(ops, 76)])
    &&& wired(ops, 78, seq![rn(ops, 75), rn(ops, 77)])
    &&& wired(ops, 79, seq![rn(ops, 11), rn(ops, 0), rn(ops, 7)])
    &&& wired_void(ops, 80, seq![rn(ops, 78), rn(ops, 79)])
    &&& wired_void(ops, 81, seq![])
}

/// Rewrite a recognised island into the re-rolled body: once per core, with
/// grid `(H, 1, 1)` and the seven view pointers as `index` arguments (the
/// caller stamps the function's name and original argument list).
#[verifier::rlimit(80)]
pub fn rewrite_head_attention(isl: &HeadAttnIsland) -> (f: IRFunction)
    requires
        island_shapes_ok(*isl),
        isl.m * isl.m <= usize::MAX,
    ensures
        f.name@ == Seq::<char>::empty(),
        f.return_type is None,
        f.grid == (isl.h as usize, 1usize, 1usize),
        args_view(f.arguments@) == seq![
            (isl.q_arg@, "index"@),
            (isl.o_arg@, "index"@),
            (isl.mask_arg@, "index"@),
            (isl.kc_arg@, "index"@),
            (isl.kd_arg@, "index"@),
            (isl.vc_arg@, "index"@),
            (isl.vd_arg@, "index"@),
        ],
        op_types(f.operations@) == rerolled_types(),
        rerolled_dataflow(f.operations@, *isl),
{
    let mut g = NameGen::new();
    let mut ops: Vec<Operation> = Vec::new();
    let ghost t0 = op_types(ops@);
    let p = emit_prologue(&mut g, &mut ops, isl);
    let v = emit_views(&mut g, &mut ops, isl);
    let (q, sc, mc) = emit_context(&mut g, &mut ops, isl, &p, &v);
    let (sd, md) = emit_diagonal(&mut g, &mut ops, isl, &p, &v, &q);
    let (wc, wd) = emit_combine(&mut g, &mut ops, isl, &p, &sc, &mc, &sd, &md);
    emit_epilogue(&mut g, &mut ops, isl, &p, &v, &wc, &wd);
    assert(t0 =~= Seq::<Seq<char>>::empty());
    assert(op_types(ops@) =~= rerolled_types());
    let mut arguments: Vec<(String, String)> = Vec::new();
    arguments.push(index_arg(&isl.q_arg));
    arguments.push(index_arg(&isl.o_arg));
    arguments.push(index_arg(&isl.mask_arg));
    arguments.push(index_arg(&isl.kc_arg));
    arguments.push(index_arg(&isl.kd_arg));
    arguments.push(index_arg(&isl.vc_arg));
    arguments.push(index_arg(&isl.vd_arg));
    assert(args_view(arguments@) =~= seq![
        (isl.q_arg@, "index"@),
        (isl.o_arg@, "index"@),
        (isl.mask_arg@, "index"@),
        (isl.kc_arg@, "index"@),
        (isl.kd_arg@, "index"@),
        (isl.vc_arg@, "index"@),
        (isl.vd_arg@, "index"@),
    ]);
    IRFunction { name: String::new(), arguments, operations: ops, grid: (isl.h as usize, 1, 1), return_type: None }
}

fn clone_args(args: &Vec<(String, String)>) -> (r: Vec<(String, String)>)
    ensures
        args_view(r@) == args_view(args@),
{
    let mut r: Vec<(String, String)> = Vec::new();
    let mut i: usize = 0;
    while i < args.len()
        invariant
            0 <= i <= args@.len(),
            r@.len() == i,
            forall|j: int| 0 <= j < i ==> #[trigger] r@[j].0@ == args@[j].0@ && r@[j].1@ == args@[j].1@,
        decreases args@.len() - i,
    {
        r.push((args[i].0.clone(), args[i].1.clone()));
        i = i + 1;
    }
    assert(args_view(r@) =~= args_view(args@));
    r
}

/// `b` is the re-rolled form of the recognised function `a`: same name and
/// argument list, a head-parallel grid `(H, 1, 1)` with `H > 1` on both,
/// and the re-rolled body.
pub open spec fn rerolled_from(a: IRFunction, b: IRFunction) -> bool {
    &&& b.name@ == a.name@
    &&& args_view(b.arguments@) == args_view(a.arguments@)
    &&& a.grid.0 > 1
    &&& a.grid.1 == 1
    &&& a.grid.2 == 1
    &&& b.grid.1 == 1
    &&& b.grid.2 == 1
    &&& op_types(b.operations@) == rerolled_types()
}

/// Apply the re-roll to every function of `module`, in place. A function is
/// replaced when it is recognised and `needs_flash` (the caller's LX budget
/// test) says its re-rolled `[m, cap]` scores tile fits; the replacement
/// keeps the function's name and original argument list. Returns the number
/// of functions rewritten.
pub fn apply_head_rewrite<F: FloatArith, N: Fn(usize) -> bool>(module: &mut IRModule, needs_flash: N, floats: &F) -> (count:
    usize)
    requires
        forall|b: usize| needs_flash.requires((b,)),
    ensures
        final(module).functions@.len() == old(module).functions@.len(),
        exists|rep: Seq<bool>|
            #[trigger] count_true(rep) == count && rep.len() == old(module).functions@.len() && forall|i: int|
                0 <= i < rep.len() ==> if #[trigger] rep[i] {
                    rerolled_from(old(module).functions@[i], final(module).functions@[i])
                } else {
                    final(module).functions@[i] == old(module).functions@[i]
                },
{
    let mut count: usize = 0;
    let mut i: usize = 0;
    let ghost before = module.functions@;
    let ghost mut rep: Seq<bool> = Seq::empty();
    while i < module.functions.len()
        invariant
            0 <= i <= module.functions@.len(),
            module.functions@.len() == before.len(),
            rep.len() == i,
            count == count_true(rep),
            count <= i,
            forall|b: usize| needs_flash.requires((b,)),
            forall|j: int| i <= j < before.len() ==> #[trigger] module.functions@[j] == before[j],
            forall|j: int|
                0 <= j < i ==> if #[trigger] rep[j] {
                    rerolled_from(before[j], module.functions@[j])
                } else {
                    module.functions@[j] == before[j]
                },
        decreases before.len() - i,
    {
        let ghost rep0 = rep;
        proof {
            rep = rep.push(false);
        }
        let found = recognize_head_attention(&module.functions[i], floats);
        if let Some(isl) = found {
            let fits = isl.m as u64 <= usize::MAX as u64 && (isl.m as usize).checked_mul(isl.m as usize).is_some();
            if fits && !needs_flash(isl.scores_bytes()) {
                let name = module.functions[i].name.clone();
                let args = clone_args(&module.functions[i].arguments);
                let mut rolled = rewrite_head_attention(&isl);
                rolled.name = name;
                rolled.arguments = args;
                module.functions.set(i, rolled);
                count = count + 1;
                proof {
                    rep = rep0.push(true);
                }
            }
        }
        proof {
            assert(rep.drop_last() =~= rep0);
        }
        i = i + 1;
    }
    count
}

/// Number of `true` entries.
pub open spec fn count_true(s: Seq<bool>) -> nat
    decreases s.len(),
{
    if s.len() == 0 {
        0
    } else {
        count_true(s.drop_last()) + (if s.last() {
            1nat
        } else {
            0nat
        })
    }
}

/// Number of entries of `s` equal to `t`.
pub open spec fn seq_count(s: Seq<Seq<char>>, t: Seq<char>) -> nat
    decreases s.len(),
{
    if s.len() == 0 {
        0
    } else {
        seq_count(s.drop_last(), t) + (if s.last() == t {
            1nat
        } else {
            0nat
        })
    }
}

proof fn lemma_seq_count_concat(a: Seq<Seq<char>>, b: Seq<Seq<char>>, t: Seq<char>)
    ensures
        seq_count(a + b, t) == seq_count(a, t) + seq_count(b, t),
    decreases b.len(),
{
    if b.len() == 0 {
        assert(a + b =~= a);
    } else {
        lemma_seq_count_concat(a, b.drop_last(), t);
        assert((a + b).drop_last() =~= a + b.drop_last());
    }
}

proof fn lemma_count_type_types(ops: Seq<Operation>, t: Seq<char>)
    ensures
        count_type(ops, t) == seq_count(op_types(ops), t),
    decreases ops.len(),
{
    if ops.len() > 0 {
        lemma_count_type_types(ops.drop_last(), t);
        assert(op_types(ops).drop_last() =~= op_types(ops.drop_last()));
    }
}

/// Length, first and last character of each op type the re-rolled body uses:
/// enough to tell any two of them apart.
proof fn lemma_type_keys()
    ensures
        "scf.for"@.len() == 7, "scf.for"@[0] == 's', "scf.for"@[6] == 'r',
        "scf.if"@.len() == 6, "scf.if"@[0] == 's', "scf.if"@[5] == 'f',
        "scf.while"@.len() == 9, "scf.while"@[0] == 's', "scf.while"@[8] == 'e',
        "scf.parallel"@.len() == 12, "scf.parallel"@[0] == 's', "scf.parallel"@[11] == 'l',
        "scf.forall"@.len() == 10, "scf.forall"@[0] == 's', "scf.forall"@[9] == 'l',
        "arith.constant"@.len() == 14, "arith.constant"@[0] == 'a', "arith.constant"@[13] == 't',
        "ktdp.get_compute_tile_id"@.len() == 24, "ktdp.get_compute_tile_id"@[0] == 'k', "ktdp.get_compute_tile_id"@[23] == 'd',
        "arith.muli"@.len() == 10, "arith.muli"@[0] == 'a', "arith.muli"@[9] == 'i',
        "arith.divui"@.len() == 11, "arith.divui"@[0] == 'a', "arith.divui"@[10] == 'i',
        "ktdp.construct_memory_view"@.len() == 26, "ktdp.construct_memory_view"@[0] == 'k', "ktdp.construct_memory_view"@[25] == 'w',
        "ktdp.construct_access_tile"@.len() == 26, "ktdp.construct_access_tile"@[0] == 'k', "ktdp.construct_access_tile"@[25] == 'e',
        "ktdp.load"@.len() == 9, "ktdp.load"@[0] == 'k', "ktdp.load"@[8] == 'd',
        "tensor.empty"@.len() == 12, "tensor.empty"@[0] == 't', "tensor.empty"@[11] == 'y',
        "linalg.transpose"@.len() == 16, "linalg.transpose"@[0] == 'l', "linalg.transpose"@[15] == 'e',
        "linalg.matmul"@.len() == 13, "linalg.matmul"@[0] == 'l', "linalg.matmul"@[12] == 'l',
        "tensor.splat"@.len() == 12, "tensor.splat"@[0] == 't', "tensor.splat"@[11] == 't',
        "arith.mulf"@.len() == 10, "arith.mulf"@[0] == 'a', "arith.mulf"@[9] == 'f',
        "linalg.broadcast"@.len() == 16, "linalg.broadcast"@[0] == 'l', "linalg.broadcast"@[15] == 't',
        "arith.addf"@.len() == 10, "arith.addf"@[0] == 'a', "arith.addf"@[9] == 'f',
        "linalg.reduce"@.len() == 13, "linalg.reduce"@[0] == 'l', "linalg.reduce"@[12] == 'e',
        "arith.maximumf"@.len() == 14, "arith.maximumf"@[0] == 'a', "arith.maximumf"@[13] == 'f',
        "tensor.reshape"@.len() == 14, "tensor.reshape"@[0] == 't', "tensor.reshape"@[13] == 'e',
        "arith.subf"@.len() == 10, "arith.subf"@[0] == 'a', "arith.subf"@[9] == 'f',
        "math.exp"@.len() == 8, "math.exp"@[0] == 'm', "math.exp"@[7] == 'p',
        "arith.divf"@.len() == 10, "arith.divf"@[0] == 'a', "arith.divf"@[9] == 'f',
        "ktdp.store"@.len() == 10, "ktdp.store"@[0] == 'k', "ktdp.store"@[9] == 'e',
        "func.return"@.len() == 11, "func.return"@[0] == 'f', "func.return"@[10] == 'n',
{
    reveal_strlit("scf.for");
    reveal_strlit("scf.if");
    reveal_strlit("scf.while");
    reveal_strlit("scf.parallel");
    reveal_strlit("scf.forall");
    reveal_strlit("arith.constant");
    reveal_strlit("ktdp.get_compute_tile_id");
    reveal_strlit("arith.muli");
    reveal_strlit("arith.divui");
    reveal_strlit("ktdp.construct_memory_view");
    reveal_strlit("ktdp.construct_access_tile");
    reveal_strlit("ktdp.load");
    reveal_strlit("tensor.empty");
    reveal_strlit("linalg.transpose");
    reveal_strlit("linalg.matmul");
    reveal_strlit("tensor.splat");
    reveal_strlit("arith.mulf");
    reveal_strlit("linalg.broadcast");
    reveal_strlit("arith.addf");
    reveal_strlit("linalg.reduce");
    reveal_strlit("arith.maximumf");
    reveal_strlit("tensor.reshape");
    reveal_strlit("arith.subf");
    reveal_strlit("math.exp");
    reveal_strlit("arith.divf");
    reveal_strlit("ktdp.store");
    reveal_strlit("func.return");
}

proof fn lemma_count_none(s: Seq<Seq<char>>, t: Seq<char>)
    requires
        forall|i: int| 0 <= i < s.len() ==> s[i] != t,
    ensures
        seq_count(s, t) == 0,
    decreases s.len(),
{
    if s.len() > 0 {
        lemma_count_none(s.drop_last(), t);
    }
}

proof fn lemma_count_one(s: Seq<Seq<char>>, t: Seq<char>, k: int)
    requires
        0 <= k < s.len(),
        s[k] == t,
        forall|i: int| 0 <= i < s.len() && i != k ==> s[i] != t,
    ensures
        seq_count(s, t) == 1,
    decreases s.len(),
{
    if k == s.len() - 1 {
        lemma_count_none(s.drop_last(), t);
    } else {
        lemma_count_one(s.drop_last(), t, k);
    }
}

proof fn lemma_count_two(s: Seq<Seq<char>>, t: Seq<char>, k1: int, k2: int)
    requires
        0 <= k1 < k2 < s.len(),
        s[k1] == t,
        s[k2] == t,
        forall|i: int| 0 <= i < s.len() && i != k1 && i != k2 ==> s[i] != t,
    ensures
        seq_count(s, t) == 2,
    decreases s.len(),
{
    if k2 == s.len() - 1 {
        lemma_count_one(s.drop_last(), t, k1);
    } else {
        lemma_count_two(s.drop_last(), t, k1, k2);
    }
}

proof fn lemma_prologue_entries()
    ensures
        prologue_types().len() == 10,
        forall|i: int| 0 <= i < 10 ==> !is_control_flow(#[trigger] prologue_types()[i]),
        forall|i: int| 0 <= i < 10 ==> (#[trigger] prologue_types()[i] == "linalg.matmul"@ <==> (false)),
        forall|i: int| 0 <= i < 10 ==> (#[trigger] prologue_types()[i] == "ktdp.store"@ <==> (false)),
{
    lemma_type_keys();
    assert forall|i: int| 0 <= i < 10 implies !is_control_flow(#[trigger] prologue_types()[i])
        && (prologue_types()[i] == "linalg.matmul"@ <==> (false))
        && (prologue_types()[i] == "ktdp.store"@ <==> (false)) by {
        assert(i == 0 || i == 1 || i == 2 || i == 3 || i == 4 || i == 5 || i == 6 || i == 7 || i == 8 || i == 9);
    }
}

proof fn lemma_view_entries()
    ensures
        view_types().len() == 7,
        forall|i: int| 0 <= i < 7 ==> !is_control_flow(#[trigger] view_types()[i]),
        forall|i: int| 0 <= i < 7 ==> (#[trigger] view_types()[i] == "linalg.matmul"@ <==> (false)),
        forall|i: int| 0 <= i < 7 ==> (#[trigger] view_types()[i] == "ktdp.store"@ <==> (false)),
{
    lemma_type_keys();
    assert forall|i: int| 0 <= i < 7 implies !is_control_flow(#[trigger] view_types()[i])
        && (view_types()[i] == "linalg.matmul"@ <==> (false))
        && (view_types()[i] == "ktdp.store"@ <==> (false)) by {
        assert(i == 0 || i == 1 || i == 2 || i == 3 || i == 4 || i == 5 || i == 6);
    }
}

proof fn lemma_context_entries()
    ensures
        context_types().len() == 17,
        forall|i: int| 0 <= i < 17 ==> !is_control_flow(#[trigger] context_types()[i]),
        forall|i: int| 0 <= i < 17 ==> (#[trigger] context_types()[i] == "linalg.matmul"@ <==> (i == 9)),
        forall|i: int| 0 <= i < 17 ==> (#[trigger] context_types()[i] == "ktdp.store"@ <==> (false)),
{
    lemma_type_keys();
    assert forall|i: int| 0 <= i < 17 implies !is_control_flow(#[trigger] context_types()[i])
        && (context_types()[i] == "linalg.matmul"@ <==> (i == 9))
        && (context_types()[i] == "ktdp.store"@ <==> (false)) by {
        assert(i == 0 || i == 1 || i == 2 || i == 3 || i == 4 || i == 5 || i == 6 || i == 7 || i == 8 || i == 9 || i == 10 || i == 11 || i == 12 || i == 13 || i == 14 || i == 15 || i == 16);
    }
}

proof fn lemma_diagonal_entries()
    ensures
        diagonal_types().len() == 12,
        forall|i: int| 0 <= i < 12 ==> !is_control_flow(#[trigger] diagonal_types()[i]),
        forall|i: int| 0 <= i < 12 ==> (#[trigger] diagonal_types()[i] == "linalg.matmul"@ <==> (i == 5)),
        forall|i: int| 0 <= i < 12 ==> (#[trigger] diagonal_types()[i] == "ktdp.store"@ <==> (false)),
{
    lemma_type_keys();
    assert forall|i: int| 0 <= i < 12 implies !is_control_flow(#[trigger] diagonal_types()[i])
        && (diagonal_types()[i] == "linalg.matmul"@ <==> (i == 5))
        && (diagonal_types()[i] == "ktdp.store"@ <==> (false)) by {
        assert(i == 0 || i == 1 || i == 2 || i == 3 || i == 4 || i == 5 || i == 6 || i == 7 || i == 8 || i == 9 || i == 10 || i == 11);
    }
}

proof fn lemma_combine_entries()
    ensures
        combine_types().len() == 24,
        forall|i: int| 0 <= i < 24 ==> !is_control_flow(#[trigger] combine_types()[i]),
        forall|i: int| 0 <= i < 24 ==> (#[trigger] combine_types()[i] == "linalg.matmul"@ <==> (false)),
        forall|i: int| 0 <= i < 24 ==> (#[trigger] combine_types()[i] == "ktdp.store"@ <==> (false)),
{
    lemma_type_keys();
    assert forall|i: int| 0 <= i < 24 implies !is_control_flow(#[trigger] combine_types()[i])
        && (combine_types()[i] == "linalg.matmul"@ <==> (false))
        && (combine_types()[i] == "ktdp.store"@ <==> (false)) by {
        assert(i == 0 || i == 1 || i == 2 || i == 3 || i == 4 || i == 5 || i == 6 || i == 7 || i == 8 || i == 9 || i == 10 || i == 11 || i == 12 || i == 13 || i == 14 || i == 15 || i == 16 || i == 17 || i == 18 || i == 19 || i == 20 || i == 21 || i == 22 || i == 23);
    }
}

proof fn lemma_epilogue_entries()
    ensures
        epilogue_types().len() == 12,
        forall|i: int| 0 <= i < 12 ==> !is_control_flow(#[trigger] epilogue_types()[i]),
        forall|i: int| 0 <= i < 12 ==> (#[trigger] epilogue_types()[i] == "linalg.matmul"@ <==> (i == 5 || i == 7)),
        forall|i: int| 0 <= i < 12 ==> (#[trigger] epilogue_types()[i] == "ktdp.store"@ <==> (i == 10)),
{
    lemma_type_keys();
    assert forall|i: int| 0 <= i < 12 implies !is_control_flow(#[trigger] epilogue_types()[i])
        && (epilogue_types()[i] == "linalg.matmul"@ <==> (i == 5 || i == 7))
        && (epilogue_types()[i] == "ktdp.store"@ <==> (i == 10)) by {
        assert(i == 0 || i == 1 || i == 2 || i == 3 || i == 4 || i == 5 || i == 6 || i == 7 || i == 8 || i == 9 || i == 10 || i == 11);
    }
}

/// A function whose body is the re-rolled body has no top-level control
/// flow, exactly one store (the whole `[m, d]` output, where the unrolled
/// form had `m`), and four matmuls (the context and diagonal `Q K^T` and
/// `A V`, once each).
pub proof fn lemma_rerolled_body_shape(f: IRFunction)
    requires
        op_types(f.operations@) == rerolled_types(),
    ensures
        no_control_flow(f.operations@),
        count_type(f.operations@, "ktdp.store"@) == 1,
        count_type(f.operations@, "linalg.matmul"@) == 4,
{
    let ops = f.operations@;
    let (p, v, c, d, k, e) = (prologue_types(), view_types(), context_types(), diagonal_types(), combine_types(), epilogue_types());
    lemma_prologue_entries();
    lemma_view_entries();
    lemma_context_entries();
    lemma_diagonal_entries();
    lemma_combine_entries();
    lemma_epilogue_entries();
    assert(op_types(ops).len() == ops.len());
    assert(rerolled_types().len() == 82);
    assert forall|i: int| 0 <= i < ops.len() implies !is_control_flow(#[trigger] ops[i].op_type@) by {
        let t = op_types(ops)[i];
        assert(ops[i].op_type@ == t);
        assert(t == rerolled_types()[i]);
        if i < 10 {
            assert(t == p[i]);
        } else if i < 17 {
            assert(t == v[i - 10]);
        } else if i < 34 {
            assert(t == c[i - 17]);
        } else if i < 46 {
            assert(t == d[i - 34]);
        } else if i < 70 {
            assert(t == k[i - 46]);
        } else {
            assert(t == e[i - 70]);
        }
    }
    let st = "ktdp.store"@;
    let mm = "linalg.matmul"@;
    lemma_count_type_types(ops, st);
    lemma_count_type_types(ops, mm);
    lemma_count_none(p, st);
    lemma_count_none(v, st);
    lemma_count_none(c, st);
    lemma_count_none(d, st);
    lemma_count_none(k, st);
    lemma_count_one(e, st, 10);
    lemma_count_none(p, mm);
    lemma_count_none(v, mm);
    lemma_count_one(c, mm, 9);
    lemma_count_one(d, mm, 5);
    lemma_count_none(k, mm);
    lemma_count_two(e, mm, 5, 7);
    lemma_seq_count_concat(p, v, st);
    lemma_seq_count_concat(p + v, c, st);
    lemma_seq_count_concat(p + v + c, d, st);
    lemma_seq_count_concat(p + v + c + d, k, st);
    lemma_seq_count_concat(p + v + c + d + k, e, st);
    lemma_seq_count_concat(p, v, mm);
    lemma_seq_count_concat(p + v, c, mm);
    lemma_seq_count_concat(p + v + c, d, mm);
    lemma_seq_count_concat(p + v + c + d, k, mm);
    lemma_seq_count_concat(p + v + c + d + k, e, mm);
}

} // verus!
