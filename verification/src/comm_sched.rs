//! Cross-core communication scheduler. Each core is an explicit resumable
//! [`CoreRunner`]: it runs top-level ops until it reaches a communication op
//! (`ktdp.reduce`, a ring all-reduce), which may park it until a tile from a
//! neighbour is delivered. [`execute_with_communication`] drives every core
//! to completion, routing the tiles cores send to each other, and reports a
//! deadlock when no parked core can be resumed.

use vstd::prelude::*;
use crate::context::CoreContext;
use crate::dialects::{Dispatch, Handler};
use crate::env::{ExecutionEnv, FloatArith, GridExecutor, sum_rounded};
use crate::interpreter::{execute_op, exec_frame, bind_scopes, int_op_value, is_int_op, op_outcome};
use crate::context::normalize;
use crate::ir::{Attr, AttrView, OpView, Operation, Tile, Value, spec_scalar_i64, value_view};
use crate::memory::SpyreMemoryHierarchy;
use crate::text::str_eq;
use crate::keyed::{keys_unique, lemma_update_value, lemma_push_fresh, lemma_empty, lemma_index_of, find_key, entries_map, key_at, index_of};

verus! {

/// Whether `op_type` is a communication op, driven by the scheduler rather
/// than the handler table.
pub fn is_comm_op(op_type: &str) -> (b: bool)
    ensures
        b == (op_type@ == "ktdp.reduce"@),
{
    str_eq(op_type, "ktdp.reduce")
}

/// The core id an element of a core group denotes: an index or integer
/// scalar, taken as a `usize` the way a cast does.
pub open spec fn core_id_of(v: Value) -> Option<usize> {
    match v {
        Value::Index(i) => Some(i as usize),
        Value::Scalar(s) => match spec_scalar_i64(s) {
            Some(i) => Some(i as usize),
            None => None,
        },
        _ => None,
    }
}

/// The core ids of a core-group tuple.
pub fn read_core_group(v: &Value) -> (r: Result<Vec<usize>, String>)
    ensures
        r matches Ok(g) ==> (v matches Value::Tuple(items) && g@.len() == items@.len() && forall|i: int|
            0 <= i < g@.len() ==> core_id_of(#[trigger] items@[i]) == Some(g@[i])),
        r is Err <==> !(v matches Value::Tuple(items) && forall|i: int|
            0 <= i < items@.len() ==> (#[trigger] core_id_of(items@[i])) is Some),
{
    let items = match v {
        Value::Tuple(items) => items,
        _ => {
            return Err(String::from_str("ktdp.reduce: core_group must be a tuple"));
        },
    };
    let mut g: Vec<usize> = Vec::new();
    let mut i: usize = 0;
    while i < items.len()
        invariant
            0 <= i <= items@.len(),
            *v == Value::Tuple(*items),
            g@.len() == i,
            forall|j: int| 0 <= j < i ==> core_id_of(#[trigger] items@[j]) == Some(g@[j]),
        decreases items@.len() - i,
    {
        match &items[i] {
            Value::Index(x) => {
                g.push(*x as usize);
            },
            Value::Scalar(s) => match s.as_i64() {
                Some(x) => {
                    g.push(x as usize);
                },
                None => {
                    return Err(String::from_str("ktdp.reduce: core_group element not an int"));
                },
            },
            _ => {
                return Err(String::from_str("ktdp.reduce: bad core_group element"));
            },
        }
        i = i + 1;
    }
    Ok(g)
}

/// Each element of `t` is the host's sum of the corresponding elements of
/// `a` and `b`, rounded to `a`'s dtype.
pub open spec fn sum_values<F: FloatArith>(floats: &F, t: Tile, a: Tile, b: Tile) -> bool {
    forall|i: int| 0 <= i < t.data@.len() ==> sum_rounded(floats, a.data@[i], b.data@[i], a.dtype, #[trigger] t.data@[i])
}

/// Element-wise sum of two same-shape tiles (the host's `f32` addition, each
/// sum rounded to the first tile's dtype).
pub fn tile_add<F: FloatArith>(a: &Tile, b: &Tile, floats: &F) -> (r: Result<Tile, String>)
    ensures
        r is Ok <==> a.shape@ == b.shape@,
        r matches Ok(t) ==> sum_values(floats, t, *a, *b),
        r matches Ok(t) ==> t.shape@ == a.shape@ && t.dtype == a.dtype && t.data@.len() == (if a.data@.len()
            <= b.data@.len() {
            a.data@.len()
        } else {
            b.data@.len()
        }) && t.unique_sticks is None && t.index_unique_sticks is None,
{
    if !crate::shape::usize_vec_eq(&a.shape, &b.shape) {
        return Err(String::from_str("ktdp.reduce: tile shape mismatch"));
    }
    let n = if a.data.len() <= b.data.len() {
        a.data.len()
    } else {
        b.data.len()
    };
    let mut data: Vec<u32> = Vec::new();
    let mut i: usize = 0;
    while i < n
        invariant
            0 <= i <= n,
            n <= a.data@.len(),
            n <= b.data@.len(),
            data@.len() == i,
            forall|j: int| 0 <= j < i ==> sum_rounded(floats, a.data@[j], b.data@[j], a.dtype, #[trigger] data@[j]),
        decreases n - i,
    {
        let v = floats.addf(a.data[i], b.data[i]);
        let x = floats.round_to_dtype(v, a.dtype);
        assert(crate::env::addf_gives(floats, a.data@[i as int], b.data@[i as int], v));
        data.push(x);
        i = i + 1;
    }
    Ok(Tile { data, dtype: a.dtype, shape: a.shape.clone(), unique_sticks: None, index_unique_sticks: None })
}

/// Where a ring all-reduce stands on one core.
pub enum RingState {
    Init,
    /// Mid-ring: the running sum, the tile to forward next round, rounds still
    /// to receive, and the ring neighbours.
    Running { result: Tile, to_forward: Tile, rounds_left: usize, next_core: usize, prev_core: usize },
}

/// Ring all-reduce (sum), one core's view: each core sends to its successor
/// in the group and receives from its predecessor for `N - 1` rounds, adding
/// each received tile and forwarding it, so every core ends with the sum of
/// all starting tiles. A core outside the group, or a group of one, keeps its
/// tile.
pub struct RingReduce {
    pub tile: Tile,
    pub core_group: Vec<usize>,
    pub state: RingState,
}

/// What a communication op asks for next.
pub enum CommStep {
    /// Park until a tile from this core arrives.
    Recv(usize),
    /// Finished with this value.
    Done(Option<Value>),
}

/// Position of the first occurrence of core `c` in group `g`.
pub open spec fn group_pos(g: Seq<usize>, c: usize, i: int) -> Option<int>
    decreases g.len() - i,
{
    if i < 0 || i >= g.len() {
        None
    } else if g[i] == c {
        Some(i)
    } else {
        group_pos(g, c, i + 1)
    }
}

/// Ring successor of position `pos`.
pub open spec fn ring_next(g: Seq<usize>, pos: int) -> usize {
    g[(pos + 1) % (g.len() as int)]
}

/// Ring predecessor of position `pos`.
pub open spec fn ring_prev(g: Seq<usize>, pos: int) -> usize {
    if pos == 0 {
        g[g.len() - 1]
    } else {
        g[pos - 1]
    }
}

/// `t` is what adding the received tile `b` to running sum `a` yields, as far
/// as its layout goes (the element values are the host's float sums).
pub open spec fn sum_layout(t: Tile, a: Tile, b: Tile) -> bool {
    &&& t.shape@ == a.shape@
    &&& t.dtype == a.dtype
    &&& t.data@.len() == (if a.data@.len() <= b.data@.len() {
        a.data@.len()
    } else {
        b.data@.len()
    })
}

/// LX bytes of the sum of tiles `a` and `b`.
pub open spec fn sum_bytes(a: Tile, b: Tile) -> int {
    (if a.data@.len() <= b.data@.len() {
        a.data@.len()
    } else {
        b.data@.len()
    }) * crate::dtypes::spec_bytes_per_elem(a.dtype) as int
}

/// Rounds a ring reduce may still wait for.
pub open spec fn ring_potential(r: RingReduce) -> int {
    match r.state {
        RingState::Init => r.core_group@.len() as int,
        RingState::Running { rounds_left, .. } => rounds_left as int,
    }
}

impl RingReduce {
    /// A running reduce has rounds left, fewer than the group size.
    pub open spec fn wf(&self) -> bool {
        &&& self.core_group@.len() <= usize::MAX
        &&& (self.state matches RingState::Running { rounds_left, .. } ==> 1 <= rounds_left
            < self.core_group@.len())
    }

    /// A reduce of `tile` over `core_group`, not yet started.
    pub fn new(tile: Tile, core_group: Vec<usize>) -> (r: RingReduce)
        ensures
            r.wf(),
            r.state is Init,
            r.core_group@ == core_group@,
            r.tile == tile,
    {
        let n = core_group.len();
        RingReduce { tile, core_group, state: RingState::Init }
    }

    /// Advance on core `core_id`, with the tile just received (if resumed).
    /// Tiles to send are appended to `outbox` as `(destination, tile)`.
    pub fn step<F: FloatArith>(
        &mut self,
        core_id: usize,
        incoming: Option<Tile>,
        outbox: &mut Vec<(usize, Tile)>,
        floats: &F,
    ) -> (r: Result<CommStep, String>)
        requires
            old(self).wf(),
        ensures
            final(self).wf(),
            final(self).core_group@ == old(self).core_group@,
            final(self).tile == old(self).tile,
            r matches Ok(CommStep::Recv(_)) ==> (final(self).state is Running && ring_potential(*final(self))
                < ring_potential(*old(self))),
            old(self).state is Running && incoming is None ==> r is Err,
            r is Err ==> final(self).state == old(self).state && final(outbox)@ == old(outbox)@,
            // starting: outside the group, or alone in it, the core keeps its tile
            (old(self).state is Init && (group_pos(old(self).core_group@, core_id, 0) is None
                || old(self).core_group@.len() <= 1)) ==> (r matches Ok(CommStep::Done(Some(Value::Tile(t))))
                && t@ == old(self).tile@ && final(outbox)@ == old(outbox)@),
            // starting inside a larger group: send the tile to the successor and
            // wait on the predecessor for `N - 1` rounds
            (old(self).state is Init ==> (group_pos(old(self).core_group@, core_id, 0) matches Some(pos) ==> (
            old(self).core_group@.len() > 1 ==> ({
                let g = old(self).core_group@;
                &&& r == Ok::<CommStep, String>(CommStep::Recv(ring_prev(g, pos)))
                &&& final(outbox)@.len() == old(outbox)@.len() + 1
                &&& final(outbox)@.subrange(0, old(outbox)@.len() as int) == old(outbox)@
                &&& final(outbox)@.last().0 == ring_next(g, pos)
                &&& final(outbox)@.last().1@ == old(self).tile@
                &&& (final(self).state matches RingState::Running { result, to_forward, rounds_left, next_core, prev_core }
                    && result@ == old(self).tile@ && to_forward@ == old(self).tile@ && rounds_left == g.len() - 1
                    && next_core == ring_next(g, pos) && prev_core == ring_prev(g, pos))
            })))),
            // a round: add the received tile; finish after the last round, else
            // forward the received tile to the successor and wait again
            (old(self).state matches RingState::Running { result, to_forward, rounds_left, next_core, prev_core }
                ==> (incoming matches Some(t) ==> (r is Ok <==> result.shape@ == t.shape@) && (r is Ok ==> (
            final(self).state matches RingState::Running { result: sum, to_forward: fwd, rounds_left: left, next_core: nc, prev_core: pc }
                && sum_layout(sum, result, t) && sum_values(floats, sum, result, t) && fwd@ == t@ && nc == next_core && pc == prev_core && (if rounds_left
                == 1 {
                left == rounds_left && final(outbox)@ == old(outbox)@ && (r matches Ok(CommStep::Done(Some(Value::Tile(o))))
                    && o@ == sum@)
            } else {
                left == rounds_left - 1 && r == Ok::<CommStep, String>(CommStep::Recv(prev_core)) && final(outbox)@
                    == old(outbox)@.push((next_core, final(outbox)@.last().1)) && final(outbox)@.last().1@ == t@
            }))))),
    {
        let n = self.core_group.len();
        let mut st = RingState::Init;
        std::mem::swap(&mut st, &mut self.state);
        match st {
            RingState::Init => {
                let mut pos: usize = 0;
                while pos < n && self.core_group[pos] != core_id
                    invariant
                        0 <= pos <= n,
                        n == self.core_group@.len(),
                        group_pos(self.core_group@, core_id, 0) == group_pos(self.core_group@, core_id, pos as int),
                    decreases n - pos,
                {
                    pos = pos + 1;
                }
                if pos == n || n <= 1 {
                    return Ok(CommStep::Done(Some(Value::Tile(self.tile.clone()))));
                }
                let next_core = self.core_group[(pos + 1) % n];
                let prev_core = if pos == 0 {
                    self.core_group[n - 1]
                } else {
                    self.core_group[pos - 1]
                };
                outbox.push((next_core, self.tile.clone()));
                self.state = RingState::Running {
                    result: self.tile.clone(),
                    to_forward: self.tile.clone(),
                    rounds_left: n - 1,
                    next_core,
                    prev_core,
                };
                Ok(CommStep::Recv(prev_core))
            },
            RingState::Running { result, to_forward, rounds_left, next_core, prev_core } => {
                let received = match incoming {
                    Some(t) => t,
                    None => {
                        self.state = RingState::Running { result, to_forward, rounds_left, next_core, prev_core };
                        return Err(String::from_str("ktdp.reduce: resumed without an incoming tile"));
                    },
                };
                let sum = match tile_add(&result, &received, floats) {
                    Ok(s) => s,
                    Err(e) => {
                        self.state = RingState::Running { result, to_forward, rounds_left, next_core, prev_core };
                        return Err(e);
                    },
                };
                let left = rounds_left - 1;
                if left == 0 {
                    let out = sum.clone();
                    self.state = RingState::Running { result: sum, to_forward: received, rounds_left, next_core, prev_core };
                    return Ok(CommStep::Done(Some(Value::Tile(out))));
                }
                outbox.push((next_core, received.clone()));
                self.state = RingState::Running { result: sum, to_forward: received, rounds_left: left, next_core, prev_core };
                Ok(CommStep::Recv(prev_core))
            },
        }
    }
}

/// Start the communication op `op`: a ring reduce of its tile operand over
/// its core-group operand.
pub fn make_comm_op(op: &Operation, ctx: &CoreContext) -> (r: Result<RingReduce, String>)
    requires
        ctx.wf(),
    ensures
        r is Ok <==> (op.op_type@ == "ktdp.reduce"@ && op.operands@.len() >= 2 && (ctx.lookup(
            op.operands@[0]@,
        ) matches Some(Value::Tile(_))) && (ctx.lookup(op.operands@[1]@) matches Some(Value::Tuple(items))
            && forall|i: int| 0 <= i < items@.len() ==> (#[trigger] core_id_of(items@[i])) is Some)),
        op.op_type@ != "ktdp.reduce"@ ==> (r matches Err(e) && e@ == "not a comm op: "@ + op.op_type@),
        r matches Ok(c) ==> c.wf() && c.state is Init && (ctx.lookup(op.operands@[0]@) matches Some(
            Value::Tile(t),
        ) && c.tile@ == t@) && (ctx.lookup(op.operands@[1]@) matches Some(Value::Tuple(items))
            && c.core_group@.len() == items@.len() && forall|i: int|
            0 <= i < items@.len() ==> core_id_of(#[trigger] items@[i]) == Some(c.core_group@[i])),
{
    if !str_eq(op.op_type.as_str(), "ktdp.reduce") {
        let mut m = String::from_str("not a comm op: ");
        m.append(op.op_type.as_str());
        return Err(m);
    }
    if op.operands.len() < 2 {
        return Err(String::from_str("ktdp.reduce expects (tile, core_group) operands"));
    }
    let tile = match ctx.get_value(op.operands[0].as_str())? {
        Value::Tile(t) => t.clone(),
        _ => {
            return Err(String::from_str("ktdp.reduce: operand 0 must be a Tile"));
        },
    };
    let group = read_core_group(ctx.get_value(op.operands[1].as_str())?)?;
    Ok(RingReduce::new(tile, group))
}

/// LX bytes a bound value occupies: a tile's size, nothing otherwise.
pub open spec fn bind_bytes(v: Value) -> int {
    match v {
        Value::Tile(t) => crate::ir::spec_tile_bytes(t),
        _ => 0,
    }
}

/// Bind a communication op's result to its SSA name, recording the LX a tile
/// occupies.
pub fn bind_result(ctx: &mut CoreContext, name: Option<&String>, val: Option<Value>) -> (r: Result<(), String>)
    requires
        old(ctx).wf(),
    ensures
        exec_frame(*old(ctx), *final(ctx)),
        (name is None || val is None) ==> (r is Ok && *final(ctx) == *old(ctx)),
        (name matches Some(n) ==> val matches Some(v) ==> (r is Err <==> (v is Tile && (bind_bytes(v)
            > i64::MAX || old(ctx).local_lx().used + bind_bytes(v) > old(ctx).local_lx().capacity)))),
        r is Err ==> *final(ctx) == *old(ctx),
        (name matches Some(n) ==> val matches Some(v) ==> (r is Ok ==> final(ctx).scopes() == old(ctx).scopes().update(
            old(ctx).scopes().len() - 1,
            old(ctx).scopes().last().insert(crate::context::normalize(n@), v),
        ))),
        (name matches Some(n) ==> val matches Some(v) ==> (r is Ok ==> final(ctx).lx_sizes() == (if v is Tile {
            old(ctx).lx_sizes().insert(crate::context::normalize(n@), bind_bytes(v) as i64)
        } else {
            old(ctx).lx_sizes()
        }))),
        (val matches Some(v) ==> (r is Ok ==> final(ctx).local_lx().used == old(ctx).local_lx().used + (if name is Some {
            bind_bytes(v)
        } else {
            0
        }))),
{
    if let (Some(n), Some(v)) = (name, val) {
        let ghost c0 = *ctx;
        if let Value::Tile(t) = &v {
            let size = match t.checked_size_bytes() {
                Some(b) => b,
                None => {
                    return Err(String::from_str("tile too large for LX accounting"));
                },
            };
            ctx.track_lx(n.as_str(), size)?;
            assert(ctx.scopes() =~= c0.scopes());
        }
        let ghost c1 = *ctx;
        assert(!(v is Tile && (bind_bytes(v) > i64::MAX || c0.local_lx().used + bind_bytes(v) > c0.local_lx().capacity)));
        assert(c1.scopes() == c0.scopes());
        ctx.set_value(n.as_str(), v);
        assert(ctx.local_lx() == c1.local_lx());
        assert(ctx.lx_sizes() == c1.lx_sizes());
        assert(ctx.scopes() == c0.scopes().update(c0.scopes().len() - 1, c0.scopes().last().insert(crate::context::normalize(n@), v)));
    }
    Ok(())
}

/// Whether a runner is parked on a receive or has run to the end.
pub enum Poll {
    Block(usize),
    Done,
}

/// One core's resumable execution of a top-level op list.
pub struct CoreRunner {
    pub ctx: CoreContext,
    /// Next top-level op to run.
    pub op_idx: usize,
    /// The communication op this core is parked in, with its result name.
    pub active: Option<(RingReduce, Option<String>)>,
}

/// A bound above any ring reduce's potential.
pub open spec fn big() -> int {
    0x1_0000_0000_0000_0000
}

/// Work a runner may still do: ops left (weighted) plus the rounds its
/// parked reduce may still wait for.
pub open spec fn runner_potential(r: CoreRunner, len: int) -> int {
    (len - r.op_idx) * big() + match r.active {
        Some(a) => ring_potential(a.0),
        None => 0,
    }
}

/// No op of `ops` from index `from` on is a communication op.
pub open spec fn comm_free_from(ops: Seq<Operation>, from: int) -> bool {
    forall|i: int| from <= i < ops.len() ==> (#[trigger] ops[i]).op_type@ != "ktdp.reduce"@
}

/// The reduce a runner is parked in.
pub open spec fn parked_reduce(r: CoreRunner) -> RingReduce {
    r.active->Some_0.0
}

/// The runner is parked mid-ring and `incoming` is a tile of the running
/// sum's shape, so resuming it advances the reduce by one round.
pub open spec fn resumable(r: CoreRunner, incoming: Option<Tile>) -> bool {
    &&& r.active is Some
    &&& parked_reduce(r).state is Running
    &&& incoming is Some
    &&& parked_reduce(r).state->Running_result.shape@ == incoming->Some_0.shape@
}

/// The keys (names without their sigils) listed in bucket `i` of `dies`.
pub open spec fn bucket_keys(dies: Seq<Vec<String>>, i: int) -> Set<Seq<char>> {
    Set::new(
        |k: Seq<char>|
            0 <= i < dies.len() && exists|y: int|
                0 <= y < dies[i]@.len() && normalize((#[trigger] dies[i]@[y])@) == k,
    )
}

/// The keys of the first `k` names of `names`.
pub open spec fn names_keys(names: Seq<String>, k: int) -> Set<Seq<char>> {
    Set::new(|key: Seq<char>| exists|y: int| 0 <= y < k && normalize((#[trigger] names[y])@) == key)
}

/// Op by op, the keys a runner drops after running it.
pub open spec fn bucket_drops(dies: Seq<Vec<String>>) -> Seq<Set<Seq<char>>> {
    Seq::new(dies.len(), |i: int| bucket_keys(dies, i))
}

/// `scopes` with every key of `keys` unbound.
pub open spec fn drop_keys(scopes: Seq<Map<Seq<char>, Value>>, keys: Set<Seq<char>>) -> Seq<
    Map<Seq<char>, Value>,
> {
    Seq::new(scopes.len(), |i: int| scopes[i].remove_keys(keys))
}

/// Every op of `ops` from index `from` on is integer arithmetic.
pub open spec fn int_ops_from(hm: Map<Seq<char>, Handler>, ops: Seq<Operation>, from: int) -> bool {
    forall|i: int| from <= i < ops.len() ==> is_int_op(hm, #[trigger] ops[i])
}

/// The bindings after a runner runs the integer ops `ops[i..]` in order,
/// each binding its value to its result name, after which the keys
/// `drops[i]` of the names whose life ends there are dropped; `None` when
/// one of the ops fails.
pub open spec fn int_run_dropping(
    hm: Map<Seq<char>, Handler>,
    scopes: Seq<Map<Seq<char>, Value>>,
    ops: Seq<Operation>,
    i: int,
    drops: Seq<Set<Seq<char>>>,
) -> Option<Seq<Map<Seq<char>, Value>>>
    decreases ops.len() - i,
{
    if i >= ops.len() {
        Some(scopes)
    } else {
        match int_op_value(hm, scopes, ops[i]) {
            Some(v) => int_run_dropping(
                hm,
                drop_keys(
                    bind_scopes(scopes, ops[i], v),
                    if 0 <= i < drops.len() {
                        drops[i]
                    } else {
                        Set::empty()
                    },
                ),
                ops,
                i + 1,
                drops,
            ),
            None => None,
        }
    }
}

/// The tile and the core group a `ktdp.reduce` op reads in `ctx`, when its
/// first two operands are bound to a tile and to a tuple of core ids.
pub open spec fn reduce_operands(ctx: CoreContext, op: Operation) -> Option<(Tile, Seq<usize>)> {
    if op.operands@.len() >= 2 {
        match (ctx.lookup(op.operands@[0]@), ctx.lookup(op.operands@[1]@)) {
            (Some(Value::Tile(t)), Some(Value::Tuple(items))) => if forall|i: int|
                0 <= i < items@.len() ==> (#[trigger] core_id_of(items@[i])) is Some {
                Some((t, Seq::new(items@.len(), |i: int| core_id_of(items@[i])->0)))
            } else {
                None
            },
            _ => None,
        }
    } else {
        None
    }
}

/// The keys dropped after op `i`: `drops[i]`, or none past its end.
pub open spec fn drop_at(drops: Seq<Set<Seq<char>>>, i: int) -> Set<Seq<char>> {
    if 0 <= i < drops.len() {
        drops[i]
    } else {
        Set::empty()
    }
}

/// `after` is `mid` with the names of `keys` forgotten: unbound in every
/// scope and their LX released.
pub open spec fn dropped(mid: CoreContext, after: CoreContext, keys: Set<Seq<char>>) -> bool {
    &&& after.scopes() == drop_keys(mid.scopes(), keys)
    &&& after.lx_sizes() == mid.lx_sizes().remove_keys(keys)
}

/// Op `i0 + j` of `ops` succeeds on context `cs[j]`, and forgetting the
/// names whose life ends there gives `cs[j + 1]`.
pub open spec fn runner_step_ok<'a, F: FloatArith>(
    env: ExecutionEnv<'a, F>,
    ops: Seq<Operation>,
    i0: int,
    drops: Seq<Set<Seq<char>>>,
    cs: Seq<CoreContext>,
    j: int,
) -> bool {
    exists|v: Option<Value>, mid: CoreContext|
        #[trigger] op_outcome(env, cs[j], ops[i0 + j], mid, Ok(v)) && dropped(mid, cs[j + 1], drop_at(drops, i0 + j))
}

/// `cs` is the sequence of contexts a runner passes through running
/// `ops[i0..]` in order, each op as `execute_op` does followed by the drop
/// of the names whose life ends there, until the first failure, which ends
/// the run with its error.
pub open spec fn runner_trace<'a, F: FloatArith>(
    env: ExecutionEnv<'a, F>,
    ops: Seq<Operation>,
    i0: int,
    drops: Seq<Set<Seq<char>>>,
    cs: Seq<CoreContext>,
    r: Result<(), String>,
) -> bool {
    match r {
        Ok(_) => {
            &&& cs.len() == ops.len() - i0 + 1
            &&& forall|j: int| 0 <= j < ops.len() - i0 ==> #[trigger] runner_step_ok(env, ops, i0, drops, cs, j)
        },
        Err(e) => {
            &&& 2 <= cs.len() <= ops.len() - i0 + 1
            &&& forall|j: int| 0 <= j < cs.len() - 2 ==> #[trigger] runner_step_ok(env, ops, i0, drops, cs, j)
            &&& op_outcome(env, cs[cs.len() - 2], ops[i0 + cs.len() - 2], cs.last(), Err(e))
        },
    }
}

/// The unit outcome of a poll.
pub open spec fn poll_unit(r: Result<Poll, String>) -> Result<(), String> {
    match r {
        Ok(_) => Ok(()),
        Err(e) => Err(e),
    }
}

/// Dropping one more name's key after the keys of the first `k` names drops
/// the keys of the first `k + 1`.
proof fn lemma_drop_one_more(
    mid: Seq<Map<Seq<char>, Value>>,
    names: Seq<String>,
    k: int,
    before: Seq<Map<Seq<char>, Value>>,
    after: Seq<Map<Seq<char>, Value>>,
)
    requires
        0 <= k < names.len(),
        before == drop_keys(mid, names_keys(names, k)),
        after == before.map_values(|m: Map<Seq<char>, Value>| m.remove(normalize(names[k]@))),
    ensures
        after == drop_keys(mid, names_keys(names, k + 1)),
{
    let key = normalize(names[k]@);
    assert(names_keys(names, k + 1) =~= names_keys(names, k).insert(key));
    assert forall|i: int| 0 <= i < mid.len() implies #[trigger] after[i] == mid[i].remove_keys(names_keys(names, k + 1)) by {
        assert(after[i] == before[i].remove(key));
        assert(mid[i].remove_keys(names_keys(names, k)).remove(key) =~= mid[i].remove_keys(names_keys(names, k + 1)));
    }
    assert(after =~= drop_keys(mid, names_keys(names, k + 1)));
}

/// The group a reduce built from `op` reads is the one its operands hold.
proof fn lemma_group_of_operands(ctx: CoreContext, op: Operation, comm: RingReduce)
    requires
        ctx.lookup(op.operands@[1]@) matches Some(Value::Tuple(items)),
        op.operands@.len() >= 2,
        ctx.lookup(op.operands@[1]@) matches Some(Value::Tuple(items)) && comm.core_group@.len() == items@.len()
            && forall|i: int| 0 <= i < items@.len() ==> core_id_of(#[trigger] items@[i]) == Some(comm.core_group@[i]),
    ensures
        reduce_operands(ctx, op) matches Some(tg) ==> tg.1 == comm.core_group@,
{
    match ctx.lookup(op.operands@[1]@) {
        Some(Value::Tuple(items)) => {
            let g = Seq::new(items@.len(), |i: int| core_id_of(items@[i])->0);
            assert forall|i: int| 0 <= i < g.len() implies g[i] == comm.core_group@[i] by {
                assert(core_id_of(items@[i]) == Some(comm.core_group@[i]));
            }
            assert(g =~= comm.core_group@);
        },
        _ => {},
    }
}

impl CoreRunner {
    /// Context well formed; a parked reduce is mid-ring.
    pub open spec fn wf(&self, len: int) -> bool {
        &&& self.ctx.wf()
        &&& self.op_idx <= len
        &&& (self.active matches Some(a) ==> a.0.wf() && a.0.state is Running)
    }

    /// Resume: hand `incoming` to the parked reduce (if any), then run
    /// top-level ops until the next park or the end. After each op, the LX
    /// of the values listed in `dies_at` for it is released.
    pub fn step<F: FloatArith>(
        &mut self,
        ops: &Vec<Operation>,
        env: &ExecutionEnv<F>,
        incoming: Option<Tile>,
        dies_at: &Vec<Vec<String>>,
        outbox: &mut Vec<(usize, Tile)>,
    ) -> (r: Result<Poll, String>)
        requires
            old(self).wf(ops@.len() as int),
            env.dispatch.wf(),
        ensures
            final(self).wf(ops@.len() as int),
            exec_frame(old(self).ctx, final(self).ctx),
            r matches Ok(Poll::Block(_)) ==> final(self).active is Some,
            r matches Ok(Poll::Done) ==> final(self).active is None,
            (old(self).active is Some && (r matches Ok(Poll::Block(_)))) ==> runner_potential(
                *final(self),
                ops@.len() as int,
            ) < runner_potential(*old(self), ops@.len() as int),
            r matches Ok(Poll::Done) ==> final(self).op_idx == ops@.len(),
            (old(self).active is None && old(self).op_idx == ops@.len()) ==> r == Ok::<Poll, String>(Poll::Done)
                && final(self).ctx == old(self).ctx,
            // with no reduce parked and none ahead, the runner never parks
            (old(self).active is None && comm_free_from(ops@, old(self).op_idx as int)) ==> !(r matches Ok(
                Poll::Block(_),
            )),
            // resumed for a middle round of its reduce: forward and park again
            (resumable(*old(self), incoming) && parked_reduce(*old(self)).state->Running_rounds_left > 1) ==> (r
                == Ok::<Poll, String>(Poll::Block(parked_reduce(*old(self)).state->Running_prev_core))
                && final(self).ctx == old(self).ctx && final(self).op_idx == old(self).op_idx),
            // resumed for the last round with no ops left: bind the sum and finish
            (resumable(*old(self), incoming) && parked_reduce(*old(self)).state->Running_rounds_left == 1 && old(
                self,
            ).op_idx == ops@.len()) ==> ({
                let acc = parked_reduce(*old(self)).state->Running_result;
                let t = incoming->Some_0;
                &&& r is Err <==> (old(self).active->Some_0.1 is Some && (sum_bytes(acc, t) > i64::MAX || old(
                    self,
                ).ctx.local_lx().used + sum_bytes(acc, t) > old(self).ctx.local_lx().capacity))
                &&& r is Ok ==> r == Ok::<Poll, String>(Poll::Done)
                &&& r is Ok ==> (old(self).active->Some_0.1 matches Some(name) ==> (final(self).ctx.lookup(name@) matches Some(
                    Value::Tile(o),
                ) && sum_layout(o, acc, t) && sum_values(env.floats, o, acc, t)))
            }),
            // with nothing parked, a reduce reached first starts its ring: it
            // fails unless its operands are a tile and a core group; on a group
            // of two or more that holds this core it sends its tile to the ring
            // successor and parks, waiting on the ring predecessor for the
            // remaining rounds
            (old(self).active is None && old(self).op_idx < ops@.len() && ops@[old(self).op_idx as int].op_type@
                == "ktdp.reduce"@) ==> match reduce_operands(old(self).ctx, ops@[old(self).op_idx as int]) {
                None => r is Err,
                Some(tg) => match group_pos(tg.1, old(self).ctx.core_id, 0) {
                    None => true,
                    Some(pos) => tg.1.len() > 1 ==> {
                    &&& r == Ok::<Poll, String>(Poll::Block(ring_prev(tg.1, pos)))
                    &&& final(self).op_idx == old(self).op_idx + 1
                    &&& final(self).ctx == old(self).ctx
                    &&& final(self).active is Some
                    &&& parked_reduce(*final(self)).core_group@ == tg.1
                    &&& parked_reduce(*final(self)).tile@ == tg.0@
                    &&& parked_reduce(*final(self)).state->Running_result@ == tg.0@
                    &&& parked_reduce(*final(self)).state->Running_rounds_left == tg.1.len() - 1
                    &&& parked_reduce(*final(self)).state->Running_next_core == ring_next(tg.1, pos)
                    &&& parked_reduce(*final(self)).state->Running_prev_core == ring_prev(tg.1, pos)
                    &&& final(outbox)@.len() == old(outbox)@.len() + 1
                    &&& final(outbox)@.drop_last() == old(outbox)@
                    &&& final(outbox)@.last().0 == ring_next(tg.1, pos)
                    &&& final(outbox)@.last().1@ == tg.0@
                    },
                },
            },
            // with nothing parked and only integer arithmetic ahead, the ops
            // run in order, each binding its value, and the names whose life
            // ends at an op are dropped after it
            (old(self).active is None && comm_free_from(ops@, old(self).op_idx as int) && int_ops_from(
                env.dispatch.handler_map(),
                ops@,
                old(self).op_idx as int,
            )) ==> ({
                let run = int_run_dropping(
                    env.dispatch.handler_map(),
                    old(self).ctx.scopes(),
                    ops@,
                    old(self).op_idx as int,
                    bucket_drops(dies_at@),
                );
                &&& r is Ok <==> run is Some
                &&& r is Ok ==> r == Ok::<Poll, String>(Poll::Done) && final(self).ctx.scopes() == run->0
            }),
            // with nothing parked and no reduce ahead, the ops run in order,
            // each as `execute_op` does, the names whose life ends at an op
            // being forgotten after it, until the end or the first failure
            (old(self).active is None && comm_free_from(ops@, old(self).op_idx as int)) ==> {
                &&& r is Ok ==> r == Ok::<Poll, String>(Poll::Done)
                &&& exists|cs: Seq<CoreContext>|
                    #[trigger] runner_trace(*env, ops@, old(self).op_idx as int, bucket_drops(dies_at@), cs, poll_unit(r))
                        && cs[0] == old(self).ctx && cs.last() == final(self).ctx
            },
    {
        let len = ops.len();
        let ghost p0 = runner_potential(*self, len as int);
        let ghost was_active = self.active is Some;
        let ghost mid_round = resumable(*old(self), incoming) && parked_reduce(*old(self)).state->Running_rounds_left > 1;
        if let Some((mut comm, result_name)) = self.active.take() {
            match comm.step(self.ctx.core_id, incoming, outbox, env.floats) {
                Ok(CommStep::Recv(src)) => {
                    self.active = Some((comm, result_name));
                    return Ok(Poll::Block(src));
                },
                Ok(CommStep::Done(val)) => {
                    bind_result(&mut self.ctx, result_name.as_ref(), val)?;
                    if self.op_idx == len {
                        return Ok(Poll::Done);
                    }
                },
                Err(e) => {
                    return Err(e);
                },
            }
        }
        assert(!mid_round);
        let ghost ctx0 = old(self).ctx;
        let ghost hm = env.dispatch.handler_map();
        let ghost drops = bucket_drops(dies_at@);
        let ghost i0 = old(self).op_idx as int;
        let ghost starts_reduce = !was_active && i0 < len && ops@[i0].op_type@ == "ktdp.reduce"@;
        let ghost parks_first = starts_reduce && match reduce_operands(ctx0, ops@[i0]) {
            None => true,
            Some(tg) => group_pos(tg.1, ctx0.core_id, 0) is Some && tg.1.len() > 1,
        };
        let ghost int_case = !was_active && comm_free_from(ops@, i0) && int_ops_from(hm, ops@, i0);
        let ghost gen_case = !was_active && comm_free_from(ops@, i0);
        let ghost mut cs: Seq<CoreContext> = seq![ctx0];
        while self.op_idx < len
            invariant
                !mid_round,
                hm == env.dispatch.handler_map(),
                drops == bucket_drops(dies_at@),
                i0 == old(self).op_idx as int,
                starts_reduce == (!was_active && i0 < len && ops@[i0].op_type@ == "ktdp.reduce"@),
                parks_first == (starts_reduce && match reduce_operands(ctx0, ops@[i0]) {
                    None => true,
                    Some(tg) => group_pos(tg.1, ctx0.core_id, 0) is Some && tg.1.len() > 1,
                }),
                int_case == (!was_active && comm_free_from(ops@, i0) && int_ops_from(hm, ops@, i0)),
                gen_case == (!was_active && comm_free_from(ops@, i0)),
                gen_case ==> cs.len() == self.op_idx - i0 + 1 && cs[0] == ctx0 && cs.last() == self.ctx,
                gen_case ==> forall|j: int|
                    0 <= j < self.op_idx - i0 ==> #[trigger] runner_step_ok(*env, ops@, i0, drops, cs, j),
                parks_first ==> self.op_idx == i0,
                !was_active && self.op_idx == i0 ==> self.ctx == ctx0 && outbox@ == old(outbox)@,
                int_case ==> int_run_dropping(hm, ctx0.scopes(), ops@, i0, drops) == int_run_dropping(
                    hm,
                    self.ctx.scopes(),
                    ops@,
                    self.op_idx as int,
                    drops,
                ),
                mid_round == (resumable(*old(self), incoming) && parked_reduce(*old(self)).state->Running_rounds_left > 1),
                len == ops@.len(),
                self.wf(len as int),
                self.active is None,
                env.dispatch.wf(),
                exec_frame(ctx0, self.ctx),
                ctx0 == old(self).ctx,
                was_active ==> (len - self.op_idx) * big() < p0,
                p0 == runner_potential(*old(self), len as int),
                was_active == old(self).active is Some,
                !was_active && old(self).op_idx == len ==> self.ctx == old(self).ctx,
                !was_active ==> self.op_idx >= old(self).op_idx,
            decreases len - self.op_idx,
        {
            let this = self.op_idx;
            let op = &ops[this];
            let ghost pre = self.ctx;
            let ghost mut step_val: Option<Value> = None;
            self.op_idx = this + 1;
            if is_comm_op(op.op_type.as_str()) {
                let mut comm = make_comm_op(op, &self.ctx)?;
                proof {
                    if starts_reduce && this == i0 {
                        lemma_group_of_operands(self.ctx, *op, comm);
                    }
                }
                match comm.step(self.ctx.core_id, None, outbox, env.floats)? {
                    CommStep::Recv(src) => {
                        proof {
                            assert(comm.core_group@.len() <= usize::MAX);
                            assert(ring_potential(comm) < big());
                        }
                        self.active = Some((comm, op.result.clone()));
                        return Ok(Poll::Block(src));
                    },
                    CommStep::Done(val) => {
                        bind_result(&mut self.ctx, op.result.as_ref(), val)?;
                    },
                }
            } else {
                let res = execute_op(op, &mut self.ctx, env);
                proof {
                    if int_case {
                        assert(is_int_op(hm, ops@[this as int]));
                    }
                }
                match res {
                    Ok(_) => {
                        proof {
                            step_val = res->Ok_0;
                        }
                    },
                    Err(e) => {
                        proof {
                            if gen_case {
                                let cs0 = cs;
                                cs = cs.push(self.ctx);
                                assert forall|j: int| 0 <= j < cs.len() - 2 implies #[trigger] runner_step_ok(*env, ops@, i0, drops, cs, j) by {
                                    assert(runner_step_ok(*env, ops@, i0, drops, cs0, j));
                                    assert(cs[j] == cs0[j] && cs[j + 1] == cs0[j + 1]);
                                }
                                assert(runner_trace(*env, ops@, i0, drops, cs, Err::<(), String>(e)));
                            }
                        }
                        return Err(e);
                    },
                }
            }
            let ghost mid_ctx = self.ctx;
            let ghost mid = self.ctx.scopes();
            proof {
                if int_case {
                    assert(is_int_op(hm, ops@[this as int]));
                    assert(int_op_value(hm, pre.scopes(), ops@[this as int]) is Some);
                    assert(mid == bind_scopes(pre.scopes(), ops@[this as int], int_op_value(hm, pre.scopes(), ops@[this as int])->0));
                }
            }
            if this < dies_at.len() {
                let dead = &dies_at[this];
                let mut k: usize = 0;
                assert(drop_keys(mid, names_keys(dead@, 0)) =~= mid) by {
                    assert forall|i: int| 0 <= i < mid.len() implies #[trigger] mid[i].remove_keys(names_keys(dead@, 0)) =~= mid[i] by {}
                }
                while k < dead.len()
                    invariant
                        0 <= k <= dead@.len(),
                        len == ops@.len(),
                        self.wf(len as int),
                        self.active is None,
                        self.op_idx == this + 1,
                        exec_frame(ctx0, self.ctx),
                        self.ctx.scopes() == drop_keys(mid, names_keys(dead@, k as int)),
                        self.ctx.lx_sizes() == mid_ctx.lx_sizes().remove_keys(names_keys(dead@, k as int)),
                    decreases dead@.len() - k,
                {
                    let ghost before = self.ctx.scopes();
                    let ghost before_lx = self.ctx.lx_sizes();
                    self.ctx.forget(dead[k].as_str());
                    proof {
                        lemma_drop_one_more(mid, dead@, k as int, before, self.ctx.scopes());
                        assert(names_keys(dead@, k + 1) =~= names_keys(dead@, k as int).insert(normalize(dead@[k as int]@)));
                        assert(self.ctx.lx_sizes() =~= mid_ctx.lx_sizes().remove_keys(names_keys(dead@, k + 1)));
                    }
                    k = k + 1;
                }
                proof {
                    assert(names_keys(dead@, dead@.len() as int) =~= drops[this as int]);
                }
            } else {
                proof {
                    assert(drop_keys(mid, Set::<Seq<char>>::empty()) =~= mid) by {
                        assert forall|i: int| 0 <= i < mid.len() implies #[trigger] mid[i].remove_keys(Set::<Seq<char>>::empty()) =~= mid[i] by {}
                    }
                    assert(mid_ctx.lx_sizes().remove_keys(Set::<Seq<char>>::empty()) =~= mid_ctx.lx_sizes());
                }
            }
            proof {
                if gen_case {
                    let cs0 = cs;
                    cs = cs.push(self.ctx);
                    assert(dropped(mid_ctx, self.ctx, drop_at(drops, this as int)));
                    assert(op_outcome(*env, cs[this - i0], ops@[i0 + (this - i0)], mid_ctx, Ok(step_val)));
                    assert(runner_step_ok(*env, ops@, i0, drops, cs, this - i0));
                    assert forall|j: int| 0 <= j < self.op_idx - i0 implies #[trigger] runner_step_ok(*env, ops@, i0, drops, cs, j) by {
                        if j < this - i0 {
                            assert(runner_step_ok(*env, ops@, i0, drops, cs0, j));
                            assert(cs[j] == cs0[j] && cs[j + 1] == cs0[j + 1]);
                        }
                    }
                }
            }
        }
        proof {
            if gen_case {
                assert(runner_trace(*env, ops@, i0, drops, cs, Ok::<(), String>(())));
            }
        }
        Ok(Poll::Done)
    }
}


// ---------------------------------------------------------------------------
// liveness
// ---------------------------------------------------------------------------

/// An SSA name: starts with `%`.
pub open spec fn is_ssa_name(n: Seq<char>) -> bool {
    n.len() > 0 && n[0] == '%'
}

/// Attribute `a` names `n` (a string attribute, or an element of a string list).
pub open spec fn attr_mentions(a: AttrView, n: Seq<char>) -> bool {
    match a {
        AttrView::Str(s) => s == n,
        AttrView::StrList(xs) => xs.contains(n),
        _ => false,
    }
}

/// Op `v` uses SSA name `n`: as an operand, in a string attribute, or anywhere
/// in its nested regions.
pub open spec fn mentions(v: OpView, n: Seq<char>) -> bool
    decreases v,
{
    is_ssa_name(n) && (v.operands.contains(n) || (exists|a: int|
        0 <= a < v.attributes.len() && #[trigger] attr_mentions(v.attributes[a].1, n)) || regions_mention(
        v.regions,
        n,
    ))
}

/// Some op of some region in `rs` uses `n`.
pub open spec fn regions_mention(rs: Seq<Seq<OpView>>, n: Seq<char>) -> bool
    decreases rs,
{
    if rs.len() == 0 {
        false
    } else {
        regions_mention(rs.drop_last(), n) || region_mention(rs.last(), n)
    }
}

/// Some op of `ops` uses `n`.
pub open spec fn region_mention(ops: Seq<OpView>, n: Seq<char>) -> bool
    decreases ops,
{
    if ops.len() == 0 {
        false
    } else {
        region_mention(ops.drop_last(), n) || mentions(ops.last(), n)
    }
}

/// The last of the first `k` top-level ops that uses `n`.
pub open spec fn last_mention(ops: Seq<Operation>, k: int, n: Seq<char>) -> Option<int>
    decreases k,
{
    if k <= 0 {
        None
    } else if mentions(ops[k - 1]@, n) {
        Some(k - 1)
    } else {
        last_mention(ops, k - 1, n)
    }
}

/// The first of the first `k` top-level ops whose result is named `n`.
pub open spec fn first_def(ops: Seq<Operation>, k: int, n: Seq<char>) -> Option<int>
    decreases k,
{
    if k <= 0 {
        None
    } else {
        match first_def(ops, k - 1, n) {
            Some(x) => Some(x),
            None => match ops[k - 1].result {
                Some(r) => if r@ == n {
                    Some(k - 1)
                } else {
                    None
                },
                None => None,
            },
        }
    }
}

/// The top-level op after which `n` is dead: its last use, or, if never
/// used, its definition.
pub open spec fn dies_index(ops: Seq<Operation>, n: Seq<char>) -> Option<int> {
    match last_mention(ops, ops.len() as int, n) {
        Some(i) => Some(i),
        None => first_def(ops, ops.len() as int, n),
    }
}

fn record_use(last_use: &mut Vec<(Vec<char>, usize)>, name: &String, idx: usize, overwrite: bool)
    requires
        keys_unique(old(last_use)@),
    ensures
        keys_unique(final(last_use)@),
        overwrite ==> entries_map(final(last_use)@) == entries_map(old(last_use)@).insert(name@, idx),
        !overwrite ==> entries_map(final(last_use)@) == (if entries_map(old(last_use)@).contains_key(name@) {
            entries_map(old(last_use)@)
        } else {
            entries_map(old(last_use)@).insert(name@, idx)
        }),
{
    let key = crate::text::str_to_chars(name.as_str());
    match find_key(last_use, &key) {
        Some(j) => {
            proof {
                lemma_index_of(last_use@, j as int);
            }
            if overwrite {
                proof {
                    lemma_update_value(last_use@, j as int, (key, idx));
                }
                last_use.set(j, (key, idx));
            }
        },
        None => {
            proof {
                lemma_push_fresh(last_use@, (key, idx));
            }
            last_use.push((key, idx));
        },
    }
}

fn starts_with_sigil(s: &String) -> (b: bool)
    ensures
        b == is_ssa_name(s@),
{
    let cs = crate::text::str_to_chars(s.as_str());
    cs.len() > 0 && cs[0] == '%'
}

/// `m` with every key satisfying `p` mapped to `idx`.
pub open spec fn upd(m: Map<Seq<char>, usize>, p: spec_fn(Seq<char>) -> bool, idx: usize) -> Map<Seq<char>, usize> {
    Map::new(|k: Seq<char>| m.contains_key(k) || p(k), |k: Seq<char>| if p(k) { idx } else { m[k] })
}

/// Record, for every SSA name `op` mentions (operands, string attributes,
/// nested regions), that it is used at top-level op `top_idx`.
fn note_uses(op: &Operation, top_idx: usize, last_use: &mut Vec<(Vec<char>, usize)>)
    requires
        keys_unique(old(last_use)@),
    ensures
        keys_unique(final(last_use)@),
        entries_map(final(last_use)@) == upd(entries_map(old(last_use)@), |k: Seq<char>| mentions(op@, k), top_idx),
    decreases op,
{
    let ghost m0 = entries_map(last_use@);
    let ghost v = op@;
    let mut i: usize = 0;
    assert(entries_map(last_use@) =~= upd(m0, |k: Seq<char>| is_ssa_name(k) && v.operands.subrange(0, 0).contains(k), top_idx));
    while i < op.operands.len()
        invariant
            0 <= i <= op.operands@.len(),
            v == op@,
            keys_unique(last_use@),
            entries_map(last_use@) == upd(m0, |k: Seq<char>| is_ssa_name(k) && v.operands.subrange(0, i as int).contains(k), top_idx),
        decreases op.operands@.len() - i,
    {
        let ghost before = entries_map(last_use@);
        assert(v.operands[i as int] == op.operands@[i as int]@);
        if starts_with_sigil(&op.operands[i]) {
            record_use(last_use, &op.operands[i], top_idx, true);
        }
        proof {
            let p1 = |k: Seq<char>| is_ssa_name(k) && v.operands.subrange(0, i + 1).contains(k);
            assert forall|k: Seq<char>| p1(k) == (is_ssa_name(k) && (v.operands.subrange(0, i as int).contains(k) || v.operands[i as int] == k)) by {
                let sub = v.operands.subrange(0, i + 1);
                if sub.contains(k) {
                    let x = choose|x: int| 0 <= x < sub.len() && sub[x] == k;
                    if x < i {
                        assert(v.operands.subrange(0, i as int)[x] == k);
                    }
                }
                if v.operands.subrange(0, i as int).contains(k) {
                    let x = choose|x: int| 0 <= x < i && v.operands.subrange(0, i as int)[x] == k;
                    assert(sub[x] == k);
                }
                if v.operands[i as int] == k {
                    assert(sub[i as int] == k);
                }
            }
            assert(entries_map(last_use@) =~= upd(m0, p1, top_idx));
        }
        i = i + 1;
    }
    assert(v.operands.subrange(0, op.operands@.len() as int) =~= v.operands);
    let ghost pa = |k: Seq<char>| is_ssa_name(k) && v.operands.contains(k);
    let mut a: usize = 0;
    assert(entries_map(last_use@) =~= upd(m0, |k: Seq<char>| pa(k) || (is_ssa_name(k) && exists|x: int| 0 <= x < 0 && #[trigger] attr_mentions(v.attributes[x].1, k)), top_idx));
    while a < op.attributes.len()
        invariant
            0 <= a <= op.attributes@.len(),
            v == op@,
            pa == (|k: Seq<char>| is_ssa_name(k) && v.operands.contains(k)),
            keys_unique(last_use@),
            entries_map(last_use@) == upd(m0, |k: Seq<char>| pa(k) || (is_ssa_name(k) && exists|x: int| 0 <= x < a && #[trigger] attr_mentions(v.attributes[x].1, k)), top_idx),
        decreases op.attributes@.len() - a,
    {
        let ghost m1 = entries_map(last_use@);
        let ghost av = op.attributes@[a as int].1@;
        assert(v.attributes[a as int].1 == av);
        match &op.attributes[a].1 {
            Attr::Str(s) => {
                if starts_with_sigil(s) {
                    record_use(last_use, s, top_idx, true);
                }
            },
            Attr::StrList(xs) => {
                let ghost xv = xs@.map_values(|x: String| x@);
                let mut k: usize = 0;
                assert(entries_map(last_use@) =~= upd(m1, |n: Seq<char>| is_ssa_name(n) && xv.subrange(0, 0).contains(n), top_idx));
                while k < xs.len()
                    invariant
                        0 <= k <= xs@.len(),
                        xv == xs@.map_values(|x: String| x@),
                        keys_unique(last_use@),
                        entries_map(last_use@) == upd(m1, |n: Seq<char>| is_ssa_name(n) && xv.subrange(0, k as int).contains(n), top_idx),
                    decreases xs@.len() - k,
                {
                    assert(xv[k as int] == xs@[k as int]@);
                    if starts_with_sigil(&xs[k]) {
                        record_use(last_use, &xs[k], top_idx, true);
                    }
                    proof {
                        let p1 = |n: Seq<char>| is_ssa_name(n) && xv.subrange(0, k + 1).contains(n);
                        assert forall|n: Seq<char>| p1(n) == (is_ssa_name(n) && (xv.subrange(0, k as int).contains(n) || xv[k as int] == n)) by {
                            let sub = xv.subrange(0, k + 1);
                            if sub.contains(n) {
                                let x = choose|x: int| 0 <= x < sub.len() && sub[x] == n;
                                if x < k {
                                    assert(xv.subrange(0, k as int)[x] == n);
                                }
                            }
                            if xv.subrange(0, k as int).contains(n) {
                                let x = choose|x: int| 0 <= x < k && xv.subrange(0, k as int)[x] == n;
                                assert(sub[x] == n);
                            }
                            if xv[k as int] == n {
                                assert(sub[k as int] == n);
                            }
                        }
                        assert(entries_map(last_use@) =~= upd(m1, p1, top_idx));
                    }
                    k = k + 1;
                }
                assert(xv.subrange(0, xs@.len() as int) =~= xv);
            },
            _ => {},
        }
        proof {
            let p0 = |k: Seq<char>| pa(k) || (is_ssa_name(k) && exists|x: int| 0 <= x < a && #[trigger] attr_mentions(v.attributes[x].1, k));
            let p1 = |k: Seq<char>| pa(k) || (is_ssa_name(k) && exists|x: int| 0 <= x < a + 1 && #[trigger] attr_mentions(v.attributes[x].1, k));
            assert forall|k: Seq<char>| p1(k) == (p0(k) || (is_ssa_name(k) && attr_mentions(av, k))) by {
                if is_ssa_name(k) && (exists|x: int| 0 <= x < a + 1 && #[trigger] attr_mentions(v.attributes[x].1, k)) {
                    let x = choose|x: int| 0 <= x < a + 1 && #[trigger] attr_mentions(v.attributes[x].1, k);
                    if x == a {
                        assert(attr_mentions(av, k));
                    }
                }
                if is_ssa_name(k) && attr_mentions(av, k) {
                    assert(attr_mentions(v.attributes[a as int].1, k));
                }
            }
            assert(entries_map(last_use@) =~= upd(m0, p1, top_idx));
        }
        a = a + 1;
    }
    let ghost pb = |k: Seq<char>| pa(k) || (is_ssa_name(k) && exists|x: int| 0 <= x < v.attributes.len() && #[trigger] attr_mentions(v.attributes[x].1, k));
    let mut r: usize = 0;
    assert(entries_map(last_use@) =~= upd(m0, |k: Seq<char>| pb(k) || (is_ssa_name(k) && regions_mention(v.regions.subrange(0, 0), k)), top_idx));
    while r < op.regions.len()
        invariant
            0 <= r <= op.regions@.len(),
            v == op@,
            pb == (|k: Seq<char>| pa(k) || (is_ssa_name(k) && exists|x: int| 0 <= x < v.attributes.len() && #[trigger] attr_mentions(v.attributes[x].1, k))),
            keys_unique(last_use@),
            entries_map(last_use@) == upd(m0, |k: Seq<char>| pb(k) || (is_ssa_name(k) && regions_mention(v.regions.subrange(0, r as int), k)), top_idx),
        decreases op.regions@.len() - r,
    {
        let region = &op.regions[r];
        let ghost vr = v.regions[r as int];
        assert(vr.len() == region@.len());
        let mut j: usize = 0;
        assert(entries_map(last_use@) =~= upd(m0, |k: Seq<char>| pb(k) || (is_ssa_name(k) && (regions_mention(v.regions.subrange(0, r as int), k) || region_mention(vr.subrange(0, 0), k))), top_idx));
        while j < region.len()
            invariant
                0 <= j <= region@.len(),
                r < op.regions@.len(),
                *region == op.regions@[r as int],
                v == op@,
                vr == v.regions[r as int],
                vr.len() == region@.len(),
                keys_unique(last_use@),
                entries_map(last_use@) == upd(m0, |k: Seq<char>| pb(k) || (is_ssa_name(k) && (regions_mention(v.regions.subrange(0, r as int), k) || region_mention(vr.subrange(0, j as int), k))), top_idx),
            decreases region@.len() - j,
        {
            proof {
                vstd::std_specs::vec::axiom_vec_decreases_to_view(op.regions);
                vstd::std_specs::vec::axiom_vec_decreases_to_view(op.regions@[r as int]);
                assert(decreases_to!(*op => op.regions));
                assert(decreases_to!(op.regions => op.regions@));
                assert(decreases_to!(op.regions@ => op.regions@[r as int]));
                assert(decreases_to!(op.regions@[r as int] => op.regions@[r as int]@));
                assert(decreases_to!(op.regions@[r as int]@ => op.regions@[r as int]@[j as int]));
            }
            let ghost inner = region@[j as int]@;
            assert(vr[j as int] == inner);
            note_uses(&region[j], top_idx, last_use);
            proof {
                let sub1 = vr.subrange(0, j + 1);
                assert(sub1.drop_last() =~= vr.subrange(0, j as int));
                assert(sub1.last() == inner);
                let p1 = |k: Seq<char>| pb(k) || (is_ssa_name(k) && (regions_mention(v.regions.subrange(0, r as int), k) || region_mention(vr.subrange(0, j + 1), k)));
                assert(entries_map(last_use@) =~= upd(m0, p1, top_idx));
            }
            j = j + 1;
        }
        proof {
            let rsub = v.regions.subrange(0, r + 1);
            assert(rsub.drop_last() =~= v.regions.subrange(0, r as int));
            assert(rsub.last() == vr);
            assert(vr.subrange(0, region@.len() as int) =~= vr);
            let p1 = |k: Seq<char>| pb(k) || (is_ssa_name(k) && regions_mention(v.regions.subrange(0, r + 1), k));
            assert(entries_map(last_use@) =~= upd(m0, p1, top_idx));
        }
        r = r + 1;
    }
    proof {
        assert(v.regions.subrange(0, op.regions@.len() as int) =~= v.regions);
        assert forall|k: Seq<char>| #[trigger] mentions(v, k) == (pb(k) || (is_ssa_name(k) && regions_mention(v.regions, k))) by {
            assert(pa(k) == (is_ssa_name(k) && v.operands.contains(k)));
        }
        assert(entries_map(last_use@) =~= upd(m0, |k: Seq<char>| mentions(op@, k), top_idx));
    }
}

/// Bucket `x` of `d` holds name `n`.
pub open spec fn in_bucket(d: Seq<Vec<String>>, x: int, n: Seq<char>) -> bool {
    exists|y: int| 0 <= y < d[x]@.len() && #[trigger] d[x]@[y]@ == n
}

/// For each top-level op, the SSA names whose last use (counting uses nested
/// in regions and names in string attributes) is that op; a value never read
/// dies at its own defining op. Each name appears once; the order within an
/// op's list is unspecified.
pub fn compute_dies_at(ops: &Vec<Operation>) -> (d: Vec<Vec<String>>)
    ensures
        d@.len() == ops@.len(),
        forall|i: int, n: Seq<char>|
            0 <= i < d@.len() ==> (#[trigger] in_bucket(d@, i, n) <==> dies_index(ops@, n) == Some(i)),
        forall|i: int, a: int, b: int|
            0 <= i < d@.len() && 0 <= a < b < d@[i]@.len() ==> (#[trigger] d@[i]@[a])@ != (#[trigger] d@[i]@[b])@,
{
    let mut last_use: Vec<(Vec<char>, usize)> = Vec::new();
    proof {
        lemma_empty(last_use@);
    }
    let mut i: usize = 0;
    while i < ops.len()
        invariant
            0 <= i <= ops@.len(),
            keys_unique(last_use@),
            forall|n: Seq<char>| #[trigger] entries_map(last_use@).contains_key(n) <==> last_mention(ops@, i as int, n) is Some,
            forall|n: Seq<char>| #[trigger] entries_map(last_use@).contains_key(n) ==> Some(entries_map(last_use@)[n] as int) == last_mention(ops@, i as int, n),
        decreases ops@.len() - i,
    {
        note_uses(&ops[i], i, &mut last_use);
        i = i + 1;
    }
    let mut i: usize = 0;
    while i < ops.len()
        invariant
            0 <= i <= ops@.len(),
            keys_unique(last_use@),
            forall|n: Seq<char>| #[trigger] entries_map(last_use@).contains_key(n) <==> (last_mention(ops@, ops@.len() as int, n) is Some || first_def(ops@, i as int, n) is Some),
            forall|n: Seq<char>| #[trigger] entries_map(last_use@).contains_key(n) ==> Some(entries_map(last_use@)[n] as int) == (match last_mention(ops@, ops@.len() as int, n) {
                Some(x) => Some(x),
                None => first_def(ops@, i as int, n),
            }),
        decreases ops@.len() - i,
    {
        if let Some(r) = &ops[i].result {
            record_use(&mut last_use, r, i, false);
        }
        i = i + 1;
    }
    let mut d: Vec<Vec<String>> = Vec::new();
    let mut i: usize = 0;
    while i < ops.len()
        invariant
            0 <= i <= ops@.len(),
            d@.len() == i,
            forall|x: int| 0 <= x < i ==> (#[trigger] d@[x])@.len() == 0,
        decreases ops@.len() - i,
    {
        d.push(Vec::new());
        i = i + 1;
    }
    let mut k: usize = 0;
    while k < last_use.len()
        invariant
            0 <= k <= last_use@.len(),
            d@.len() == ops@.len(),
            keys_unique(last_use@),
            forall|n: Seq<char>| #[trigger] entries_map(last_use@).contains_key(n) ==> Some(entries_map(last_use@)[n] as int) == dies_index(ops@, n),
            forall|n: Seq<char>| #[trigger] entries_map(last_use@).contains_key(n) <==> dies_index(ops@, n) is Some,
            forall|x: int, n: Seq<char>|
                0 <= x < d@.len() ==> (#[trigger] in_bucket(d@, x, n) <==> (exists|e: int|
                    0 <= e < k && last_use@[e].0@ == n && last_use@[e].1 == x)),
            forall|x: int, a: int, b: int|
                0 <= x < d@.len() && 0 <= a < b < d@[x]@.len() ==> (#[trigger] d@[x]@[a])@ != (#[trigger] d@[x]@[b])@,
        decreases last_use@.len() - k,
    {
        let ghost d0 = d@;
        let ghost key = last_use@[k as int].0@;
        let idx = last_use[k].1;
        if idx < d.len() {
            let ghost b0 = d@[idx as int]@;
            let mut names = Vec::new();
            std::mem::swap(&mut names, &mut d[idx]);
            assert(names@ == b0);
            let nm = crate::text::chars_to_string(&last_use[k].0);
            names.push(nm);
            d.set(idx, names);
            proof {
                assert(!in_bucket(d0, idx as int, key)) by {
                    if in_bucket(d0, idx as int, key) {
                        let e = choose|e: int| 0 <= e < k && last_use@[e].0@ == key && last_use@[e].1 == idx;
                        assert(key_at(last_use@, e) != key_at(last_use@, k as int));
                    }
                }
                assert forall|x: int, n: Seq<char>| 0 <= x < d@.len() implies #[trigger] in_bucket(d@, x, n) == (in_bucket(
                    d0,
                    x,
                    n,
                ) || (x == idx && n == key)) by {
                    if x != idx {
                        assert(d@[x] == d0[x]);
                    } else {
                        assert(d@[x]@ == b0.push(nm));
                        if in_bucket(d@, x, n) {
                            let y = choose|y: int| 0 <= y < d@[x]@.len() && #[trigger] d@[x]@[y]@ == n;
                            if y < b0.len() {
                                assert(d0[x]@[y]@ == n);
                            }
                        }
                        if in_bucket(d0, x, n) {
                            let y = choose|y: int| 0 <= y < d0[x]@.len() && #[trigger] d0[x]@[y]@ == n;
                            assert(d@[x]@[y]@ == n);
                        }
                        if n == key {
                            assert(d@[x]@[b0.len() as int]@ == n);
                        }
                    }
                }
                assert forall|x: int, a: int, b: int|
                    0 <= x < d@.len() && 0 <= a < b < d@[x]@.len() implies (#[trigger] d@[x]@[a])@ != (#[trigger] d@[x]@[b])@ by {
                    if x != idx {
                        assert(d@[x] == d0[x]);
                    } else {
                        if b == b0.len() {
                            assert(d0[x]@[a]@ == d@[x]@[a]@);
                            if d@[x]@[a]@ == key {
                                assert(in_bucket(d0, x, key));
                            }
                        } else {
                            assert(d0[x]@[a] == d@[x]@[a] && d0[x]@[b] == d@[x]@[b]);
                        }
                    }
                }
            }
        }
        proof {
            assert forall|x: int, n: Seq<char>| 0 <= x < d@.len() implies #[trigger] in_bucket(d@, x, n) == (exists|e: int|
                0 <= e < k + 1 && last_use@[e].0@ == n && last_use@[e].1 == x) by {
                if idx < d@.len() {
                } else {
                    assert(d@ == d0);
                }
                if exists|e: int| 0 <= e < k + 1 && last_use@[e].0@ == n && last_use@[e].1 == x {
                    let e = choose|e: int| 0 <= e < k + 1 && last_use@[e].0@ == n && last_use@[e].1 == x;
                    if e < k {
                    }
                }
            }
        }
        k = k + 1;
    }
    proof {
        assert forall|i: int, n: Seq<char>| 0 <= i < d@.len() implies (#[trigger] in_bucket(d@, i, n) <==> dies_index(ops@, n) == Some(i)) by {
            if in_bucket(d@, i, n) {
                let e = choose|e: int| 0 <= e < last_use@.len() && last_use@[e].0@ == n && last_use@[e].1 == i;
                lemma_index_of(last_use@, e);
                assert(entries_map(last_use@).contains_key(n));
            }
            if dies_index(ops@, n) == Some(i) {
                assert(entries_map(last_use@).contains_key(n));
                let e = index_of(last_use@, n);
                lemma_index_of(last_use@, e);
                assert(last_use@[e].0@ == n);
            }
        }
    }
    d
}

// ---------------------------------------------------------------------------
// the scheduler
// ---------------------------------------------------------------------------

/// Work left over the live runners (`done[c]` marks finished cores), from
/// index `k` on.
pub open spec fn total_potential(rs: Seq<CoreRunner>, done: Seq<bool>, len: int, k: int) -> int
    decreases rs.len() - k,
{
    if k < 0 || k >= rs.len() {
        0
    } else {
        (if k < done.len() && done[k] {
            0
        } else {
            runner_potential(rs[k], len)
        }) + total_potential(rs, done, len, k + 1)
    }
}

proof fn lemma_total_update(rs: Seq<CoreRunner>, done: Seq<bool>, len: int, k: int, c: int, r2: CoreRunner, d2: bool)
    requires
        0 <= k <= c < rs.len(),
        rs.len() == done.len(),
    ensures
        total_potential(rs.update(c, r2), done.update(c, d2), len, k) == total_potential(rs, done, len, k)
            - (if done[c] {
            0
        } else {
            runner_potential(rs[c], len)
        }) + (if d2 {
            0
        } else {
            runner_potential(r2, len)
        }),
    decreases c - k,
{
    if k < c {
        lemma_total_update(rs, done, len, k + 1, c, r2, d2);
    } else {
        lemma_total_same(rs, done, rs.update(c, r2), done.update(c, d2), len, k + 1);
    }
}

proof fn lemma_total_same(rs: Seq<CoreRunner>, done: Seq<bool>, rs2: Seq<CoreRunner>, done2: Seq<bool>, len: int, k: int)
    requires
        rs.len() == rs2.len(),
        done.len() == done2.len(),
        forall|i: int| k <= i < rs.len() ==> rs[i] == rs2[i],
        forall|i: int| k <= i < done.len() ==> done[i] == done2[i],
    ensures
        total_potential(rs, done, len, k) == total_potential(rs2, done2, len, k),
    decreases rs.len() - k,
{
    if 0 <= k < rs.len() {
        lemma_total_same(rs, done, rs2, done2, len, k + 1);
    }
}

proof fn lemma_total_nonneg(rs: Seq<CoreRunner>, done: Seq<bool>, len: int, k: int)
    requires
        forall|i: int| 0 <= i < rs.len() ==> (#[trigger] rs[i]).op_idx <= len,
        forall|i: int| 0 <= i < rs.len() ==> ((#[trigger] rs[i]).active matches Some(a) ==> ring_potential(a.0) >= 0),
    ensures
        total_potential(rs, done, len, k) >= 0,
    decreases rs.len() - k,
{
    if 0 <= k < rs.len() {
        lemma_total_nonneg(rs, done, len, k + 1);
        assert((len - rs[k].op_idx) * big() >= 0) by (nonlinear_arith)
            requires
                rs[k].op_idx <= len,
        ;
    }
}

/// Position of the first queue from `s` to `d` at or after `i`.
pub open spec fn queue_pos(ms: Seq<(usize, usize, Vec<Tile>)>, s: usize, d: usize, i: int) -> Option<int>
    decreases ms.len() - i,
{
    if i < 0 || i >= ms.len() {
        None
    } else if ms[i].0 == s && ms[i].1 == d {
        Some(i)
    } else {
        queue_pos(ms, s, d, i + 1)
    }
}

/// The tiles queued from `s` to `d`, oldest first.
pub open spec fn queue_of(ms: Seq<(usize, usize, Vec<Tile>)>, s: usize, d: usize) -> Seq<Tile> {
    match queue_pos(ms, s, d, 0) {
        Some(k) => ms[k].2@,
        None => Seq::empty(),
    }
}

/// Each `(src, dst)` pair has at most one queue.
pub open spec fn queues_unique(ms: Seq<(usize, usize, Vec<Tile>)>) -> bool {
    forall|a: int, b: int| 0 <= a < b < ms.len() ==> !(#[trigger] ms[a].0 == #[trigger] ms[b].0 && ms[a].1 == ms[b].1)
}

proof fn lemma_queue_pos(ms: Seq<(usize, usize, Vec<Tile>)>, s: usize, d: usize, i: int)
    requires
        0 <= i,
    ensures
        queue_pos(ms, s, d, i) matches Some(k) ==> i <= k < ms.len() && ms[k].0 == s && ms[k].1 == d && forall|j: int|
            i <= j < k ==> !(#[trigger] ms[j].0 == s && ms[j].1 == d),
        queue_pos(ms, s, d, i) is None ==> forall|j: int| i <= j < ms.len() ==> !(#[trigger] ms[j].0 == s && ms[j].1 == d),
    decreases ms.len() - i,
{
    if i < ms.len() {
        lemma_queue_pos(ms, s, d, i + 1);
    }
}

/// The first queue from `s` to `d` is the one at `k`.
proof fn lemma_queue_at(ms: Seq<(usize, usize, Vec<Tile>)>, s: usize, d: usize, k: int)
    requires
        0 <= k < ms.len(),
        ms[k].0 == s && ms[k].1 == d,
        forall|j: int| 0 <= j < k ==> !(#[trigger] ms[j].0 == s && ms[j].1 == d),
    ensures
        queue_pos(ms, s, d, 0) == Some(k),
{
    lemma_queue_pos(ms, s, d, 0);
    match queue_pos(ms, s, d, 0) {
        Some(k2) => {
            if k2 != k {
                assert(k2 < k ==> !(ms[k2].0 == s && ms[k2].1 == d));
            }
        },
        None => {
            assert(!(ms[k].0 == s && ms[k].1 == d));
        },
    }
}

/// No queue from `s` to `d`.
proof fn lemma_queue_none(ms: Seq<(usize, usize, Vec<Tile>)>, s: usize, d: usize)
    requires
        forall|j: int| 0 <= j < ms.len() ==> !(#[trigger] ms[j].0 == s && ms[j].1 == d),
    ensures
        queue_pos(ms, s, d, 0) is None,
{
    lemma_queue_pos(ms, s, d, 0);
    if let Some(k) = queue_pos(ms, s, d, 0) {
        assert(!(ms[k].0 == s && ms[k].1 == d));
    }
}

/// With unique pairs, a pair's queue is the entry at `k` holding it.
proof fn lemma_queue_of_at(ms: Seq<(usize, usize, Vec<Tile>)>, s: usize, d: usize, k: int)
    requires
        queues_unique(ms),
        0 <= k < ms.len(),
        ms[k].0 == s && ms[k].1 == d,
    ensures
        queue_of(ms, s, d) == ms[k].2@,
{
    assert forall|j: int| 0 <= j < k implies !(#[trigger] ms[j].0 == s && ms[j].1 == d) by {
        assert(!(ms[j].0 == ms[k].0 && ms[j].1 == ms[k].1));
    }
    lemma_queue_at(ms, s, d, k);
}

/// A pair's queue is the entry holding it, or empty when there is none.
proof fn lemma_queue_of_same(m0: Seq<(usize, usize, Vec<Tile>)>, m1: Seq<(usize, usize, Vec<Tile>)>, s: usize, d: usize, k0: int, k1: int)
    requires
        queues_unique(m0),
        queues_unique(m1),
        (0 <= k0 < m0.len() && m0[k0].0 == s && m0[k0].1 == d) ==> 0 <= k1 < m1.len() && m1[k1] == m0[k0],
        !(0 <= k0 < m0.len() && m0[k0].0 == s && m0[k0].1 == d) ==> forall|j: int| 0 <= j < m0.len() ==> !(#[trigger] m0[j].0 == s && m0[j].1 == d),
        !(0 <= k0 < m0.len() && m0[k0].0 == s && m0[k0].1 == d) ==> forall|j: int| 0 <= j < m1.len() ==> !(#[trigger] m1[j].0 == s && m1[j].1 == d),
    ensures
        queue_of(m1, s, d) == queue_of(m0, s, d),
{
    if 0 <= k0 < m0.len() && m0[k0].0 == s && m0[k0].1 == d {
        lemma_queue_of_at(m0, s, d, k0);
        lemma_queue_of_at(m1, s, d, k1);
    } else {
        lemma_queue_none(m0, s, d);
        lemma_queue_none(m1, s, d);
    }
}

/// Queue `tile` from `src` to `dst`.
fn push_message(messages: &mut Vec<(usize, usize, Vec<Tile>)>, src: usize, dst: usize, tile: Tile)
    requires
        queues_unique(old(messages)@),
    ensures
        queues_unique(final(messages)@),
        queue_of(final(messages)@, src, dst) == queue_of(old(messages)@, src, dst).push(tile),
        forall|s: usize, d: usize|
            !(s == src && d == dst) ==> #[trigger] queue_of(final(messages)@, s, d) == queue_of(old(messages)@, s, d),
{
    let ghost m0 = messages@;
    let mut i: usize = 0;
    while i < messages.len()
        invariant
            0 <= i <= messages@.len(),
            messages@ == m0,
            m0 == old(messages)@,
            queues_unique(m0),
            forall|j: int| 0 <= j < i ==> !(#[trigger] m0[j].0 == src && m0[j].1 == dst),
        decreases messages@.len() - i,
    {
        if messages[i].0 == src && messages[i].1 == dst {
            let (a, b, mut q) = messages.remove(i);
            let ghost q0 = q@;
            q.push(tile);
            messages.insert(i, (a, b, q));
            proof {
                let m1 = messages@;
                assert(m1 =~= m0.update(i as int, (a, b, q)));
                assert(queues_unique(m1)) by {
                    assert forall|x: int, y: int| 0 <= x < y < m1.len() implies !(#[trigger] m1[x].0 == #[trigger] m1[y].0
                        && m1[x].1 == m1[y].1) by {
                        assert(m1[x].0 == m0[x].0 && m1[x].1 == m0[x].1);
                        assert(m1[y].0 == m0[y].0 && m1[y].1 == m0[y].1);
                        assert(!(m0[x].0 == m0[y].0 && m0[x].1 == m0[y].1));
                    }
                }
                lemma_queue_of_at(m0, src, dst, i as int);
                lemma_queue_of_at(m1, src, dst, i as int);
                assert forall|s: usize, d: usize| !(s == src && d == dst) implies #[trigger] queue_of(m1, s, d) == queue_of(
                    m0,
                    s,
                    d,
                ) by {
                    if exists|k: int| 0 <= k < m0.len() && m0[k].0 == s && m0[k].1 == d {
                        let k = choose|k: int| 0 <= k < m0.len() && m0[k].0 == s && m0[k].1 == d;
                        lemma_queue_of_same(m0, m1, s, d, k, k);
                    } else {
                        assert forall|j: int| 0 <= j < m1.len() implies !(#[trigger] m1[j].0 == s && m1[j].1 == d) by {
                            assert(m1[j].0 == m0[j].0 && m1[j].1 == m0[j].1);
                        }
                        lemma_queue_of_same(m0, m1, s, d, -1, -1);
                    }
                }
            }
            return;
        }
        i = i + 1;
    }
    let mut q: Vec<Tile> = Vec::new();
    q.push(tile);
    messages.push((src, dst, q));
    proof {
        let m1 = messages@;
        assert(m1 =~= m0.push((src, dst, q)));
        assert(queues_unique(m1)) by {
            assert forall|x: int, y: int| 0 <= x < y < m1.len() implies !(#[trigger] m1[x].0 == #[trigger] m1[y].0
                && m1[x].1 == m1[y].1) by {
                if y == m0.len() {
                    assert(!(m0[x].0 == src && m0[x].1 == dst));
                } else {
                    assert(!(m0[x].0 == m0[y].0 && m0[x].1 == m0[y].1));
                }
            }
        }
        lemma_queue_none(m0, src, dst);
        lemma_queue_of_at(m1, src, dst, m0.len() as int);
        assert(q@ =~= Seq::<Tile>::empty().push(tile));
        assert forall|s: usize, d: usize| !(s == src && d == dst) implies #[trigger] queue_of(m1, s, d) == queue_of(m0, s, d) by {
            if exists|k: int| 0 <= k < m0.len() && m0[k].0 == s && m0[k].1 == d {
                let k = choose|k: int| 0 <= k < m0.len() && m0[k].0 == s && m0[k].1 == d;
                lemma_queue_of_same(m0, m1, s, d, k, k);
            } else {
                assert forall|j: int| 0 <= j < m1.len() implies !(#[trigger] m1[j].0 == s && m1[j].1 == d) by {
                    if j < m0.len() {
                        assert(m1[j] == m0[j]);
                    }
                }
                lemma_queue_of_same(m0, m1, s, d, -1, -1);
            }
        }
    }
}

/// The oldest queued tile from `src` to `dst`, removed from the queue.
fn pop_message(messages: &mut Vec<(usize, usize, Vec<Tile>)>, src: usize, dst: usize) -> (r: Option<Tile>)
    requires
        queues_unique(old(messages)@),
    ensures
        queues_unique(final(messages)@),
        queue_of(old(messages)@, src, dst).len() > 0 ==> r == Some(queue_of(old(messages)@, src, dst)[0])
            && queue_of(final(messages)@, src, dst) == queue_of(old(messages)@, src, dst).drop_first(),
        queue_of(old(messages)@, src, dst).len() == 0 ==> r is None && queue_of(final(messages)@, src, dst)
            == queue_of(old(messages)@, src, dst),
        forall|s: usize, d: usize|
            !(s == src && d == dst) ==> #[trigger] queue_of(final(messages)@, s, d) == queue_of(old(messages)@, s, d),
{
    let ghost m0 = messages@;
    let mut i: usize = 0;
    while i < messages.len()
        invariant
            0 <= i <= messages@.len(),
            messages@ == m0,
            m0 == old(messages)@,
            queues_unique(m0),
            forall|j: int| 0 <= j < i ==> !(#[trigger] m0[j].0 == src && m0[j].1 == dst),
        decreases messages@.len() - i,
    {
        if messages[i].0 == src && messages[i].1 == dst {
            let (a, b, mut q) = messages.remove(i);
            let ghost q0 = q@;
            let ghost mr = messages@;
            proof {
                assert(mr =~= m0.remove(i as int));
                lemma_queue_of_at(m0, src, dst, i as int);
                assert(queues_unique(mr)) by {
                    assert forall|x: int, y: int| 0 <= x < y < mr.len() implies !(#[trigger] mr[x].0 == #[trigger] mr[y].0
                        && mr[x].1 == mr[y].1) by {
                        let x0 = if x < i { x } else { x + 1 };
                        let y0 = if y < i { y } else { y + 1 };
                        assert(mr[x] == m0[x0] && mr[y] == m0[y0]);
                        assert(!(m0[x0].0 == m0[y0].0 && m0[x0].1 == m0[y0].1));
                    }
                }
                assert forall|j: int| 0 <= j < mr.len() implies !(#[trigger] mr[j].0 == src && mr[j].1 == dst) by {
                    let j0 = if j < i { j } else { j + 1 };
                    assert(mr[j] == m0[j0]);
                    if j0 < i {
                        assert(!(m0[j0].0 == m0[i as int].0 && m0[j0].1 == m0[i as int].1));
                    } else {
                        assert(!(m0[i as int].0 == m0[j0].0 && m0[i as int].1 == m0[j0].1));
                    }
                }
                lemma_queue_none(mr, src, dst);
                assert forall|s: usize, d: usize| !(s == src && d == dst) implies #[trigger] queue_of(mr, s, d) == queue_of(
                    m0,
                    s,
                    d,
                ) by {
                    if exists|k: int| 0 <= k < m0.len() && m0[k].0 == s && m0[k].1 == d {
                        let k = choose|k: int| 0 <= k < m0.len() && m0[k].0 == s && m0[k].1 == d;
                        let k1 = if k < i { k } else { k - 1 };
                        assert(k != i);
                        assert(mr[k1] == m0[k]);
                        lemma_queue_of_same(m0, mr, s, d, k, k1);
                    } else {
                        assert forall|j: int| 0 <= j < mr.len() implies !(#[trigger] mr[j].0 == s && mr[j].1 == d) by {
                            let j0 = if j < i { j } else { j + 1 };
                            assert(mr[j] == m0[j0]);
                        }
                        lemma_queue_of_same(m0, mr, s, d, -1, -1);
                    }
                }
            }
            if q.len() == 0 {
                return None;
            }
            let t = q.remove(0);
            if q.len() > 0 {
                messages.insert(i, (a, b, q));
                proof {
                    let m1 = messages@;
                    assert(m1 =~= m0.update(i as int, (a, b, q)));
                    assert(q@ =~= q0.drop_first());
                    assert(queues_unique(m1)) by {
                        assert forall|x: int, y: int| 0 <= x < y < m1.len() implies !(#[trigger] m1[x].0
                            == #[trigger] m1[y].0 && m1[x].1 == m1[y].1) by {
                            assert(m1[x].0 == m0[x].0 && m1[x].1 == m0[x].1);
                            assert(m1[y].0 == m0[y].0 && m1[y].1 == m0[y].1);
                            assert(!(m0[x].0 == m0[y].0 && m0[x].1 == m0[y].1));
                        }
                    }
                    lemma_queue_of_at(m1, src, dst, i as int);
                    assert forall|s: usize, d: usize| !(s == src && d == dst) implies #[trigger] queue_of(m1, s, d)
                        == queue_of(m0, s, d) by {
                        if exists|k: int| 0 <= k < m0.len() && m0[k].0 == s && m0[k].1 == d {
                            let k = choose|k: int| 0 <= k < m0.len() && m0[k].0 == s && m0[k].1 == d;
                            lemma_queue_of_same(m0, m1, s, d, k, k);
                        } else {
                            assert forall|j: int| 0 <= j < m1.len() implies !(#[trigger] m1[j].0 == s && m1[j].1 == d) by {
                                assert(m1[j].0 == m0[j].0 && m1[j].1 == m0[j].1);
                            }
                            lemma_queue_of_same(m0, m1, s, d, -1, -1);
                        }
                    }
                }
            } else {
                assert(q0.drop_first() =~= Seq::<Tile>::empty());
            }
            return Some(t);
        }
        i = i + 1;
    }
    proof {
        lemma_queue_none(m0, src, dst);
    }
    None
}

/// Where core `core` is first recorded as waiting.
pub open spec fn waiting_pos(w: Seq<(usize, usize)>, core: usize) -> Option<int>
    decreases w.len(),
{
    if w.len() == 0 {
        None
    } else {
        match waiting_pos(w.drop_last(), core) {
            Some(i) => Some(i),
            None => if w.last().0 == core {
                Some(w.len() - 1)
            } else {
                None
            },
        }
    }
}

/// The core `core` is waiting on, and where that is recorded.
fn find_waiting(waiting: &Vec<(usize, usize)>, core: usize) -> (r: Option<usize>)
    ensures
        r matches Some(i) ==> i < waiting@.len() && waiting@[i as int].0 == core,
        r == (match waiting_pos(waiting@, core) {
            Some(i) => Some(i as usize),
            None => None::<usize>,
        }),
{
    let mut i: usize = 0;
    while i < waiting.len()
        invariant
            0 <= i <= waiting@.len(),
            waiting_pos(waiting@.subrange(0, i as int), core) is None,
        decreases waiting@.len() - i,
    {
        proof {
            assert(waiting@.subrange(0, i + 1).drop_last() =~= waiting@.subrange(0, i as int));
        }
        if waiting[i].0 == core {
            proof {
                lemma_waiting_prefix(waiting@, i + 1, core);
            }
            return Some(i);
        }
        i = i + 1;
    }
    assert(waiting@.subrange(0, waiting@.len() as int) =~= waiting@);
    None
}

/// A match within the first `k` entries is the match of the whole list.
proof fn lemma_waiting_pos_range(w: Seq<(usize, usize)>, core: usize)
    ensures
        waiting_pos(w, core) matches Some(i) ==> 0 <= i < w.len() && w[i].0 == core,
    decreases w.len(),
{
    if w.len() > 0 {
        lemma_waiting_pos_range(w.drop_last(), core);
    }
}

proof fn lemma_waiting_prefix(w: Seq<(usize, usize)>, k: int, core: usize)
    requires
        0 <= k <= w.len(),
        waiting_pos(w.subrange(0, k), core) is Some,
    ensures
        waiting_pos(w, core) == waiting_pos(w.subrange(0, k), core),
    decreases w.len() - k,
{
    if k < w.len() {
        assert(w.subrange(0, k + 1).drop_last() =~= w.subrange(0, k));
        lemma_waiting_prefix(w, k + 1, core);
    } else {
        assert(w.subrange(0, k) =~= w);
    }
}

/// Runners well formed and laid out by core id; unfinished ones parked.
pub open spec fn sched_inv(rs: Seq<CoreRunner>, done: Seq<bool>, n: int, cores: int, len: int, parked: bool) -> bool {
    &&& rs.len() == n
    &&& done.len() == n
    &&& forall|c: int| 0 <= c < n && !done[c] ==> (#[trigger] rs[c]).wf(len)
    &&& forall|c: int| 0 <= c < n ==> (#[trigger] rs[c]).ctx.core_id == c
    &&& forall|c: int| 0 <= c < n ==> (#[trigger] rs[c]).ctx.mem.lx_scratchpads@.len() == cores
    &&& parked ==> forall|c: int| 0 <= c < n && !done[c] ==> (#[trigger] rs[c]).active is Some
}

/// Advance core `c` (feeding it `incoming`), with the shared HBM swapped in
/// for the step; route what it sends; record whether it parked or finished
/// (a finished core's LX goes back into `mem`).
#[verifier::rlimit(40)]
fn advance<F: FloatArith>(
    c: usize,
    incoming: Option<Tile>,
    runners: &mut Vec<CoreRunner>,
    done: &mut Vec<bool>,
    messages: &mut Vec<(usize, usize, Vec<Tile>)>,
    waiting: &mut Vec<(usize, usize)>,
    mem: &mut SpyreMemoryHierarchy,
    ops: &Vec<Operation>,
    env: &ExecutionEnv<F>,
    dies_at: &Vec<Vec<String>>,
) -> (r: Result<(), String>)
    requires
        sched_inv(old(runners)@, old(done)@, old(runners)@.len() as int, old(runners)@.len() as int, ops@.len() as int, false),
        c < old(runners)@.len(),
        !old(done)@[c as int],
        old(mem).lx_scratchpads@.len() >= old(runners)@.len(),
        env.dispatch.wf(),
        queues_unique(old(messages)@),
    ensures
        queues_unique(final(messages)@),
        sched_inv(final(runners)@, final(done)@, old(runners)@.len() as int, old(runners)@.len() as int, ops@.len() as int, false),
        final(mem).lx_scratchpads@.len() == old(mem).lx_scratchpads@.len(),
        final(mem).num_cores == old(mem).num_cores,
        r is Ok ==> (final(done)@[c as int] || final(runners)@[c as int].active is Some),
        (old(runners)@[c as int].active is None && old(runners)@[c as int].op_idx == ops@.len()) ==> r is Ok
            && final(done)@[c as int],
        (old(runners)@[c as int].active is None && comm_free_from(ops@, old(runners)@[c as int].op_idx as int))
            ==> (r is Ok ==> final(done)@[c as int]),
        forall|k: int| 0 <= k < old(runners)@.len() && k != c ==> final(runners)@[k] == old(runners)@[k]
            && final(done)@[k] == old(done)@[k],
        r is Ok && old(runners)@[c as int].active is Some ==> total_potential(
            final(runners)@,
            final(done)@,
            ops@.len() as int,
            0,
        ) < total_potential(old(runners)@, old(done)@, ops@.len() as int, 0),
        forall|s: usize, d: usize| s != c ==> #[trigger] queue_of(final(messages)@, s, d) == queue_of(old(messages)@, s, d),
        // a fresh reduce parks the core on its ring predecessor
        (old(runners)@[c as int].active is None && old(runners)@[c as int].op_idx < ops@.len() && fresh_park_src(
            old(runners)@[c as int].ctx,
            ops@[old(runners)@[c as int].op_idx as int],
        ) is Some) ==> (r is Ok && !final(done)@[c as int] && final(waiting)@ == old(waiting)@.push(
            (c, fresh_park_src(old(runners)@[c as int].ctx, ops@[old(runners)@[c as int].op_idx as int])->0),
        )),
        (old(runners)@[c as int].active is None && comm_free_from(ops@, old(runners)@[c as int].op_idx as int))
            ==> exists|cs: Seq<CoreContext>|
            #[trigger] runner_trace(*env, ops@, old(runners)@[c as int].op_idx as int, bucket_drops(dies_at@), cs, r)
                && cs[0].scopes() == old(runners)@[c as int].ctx.scopes() && cs[0].core_id == c,
        (old(runners)@[c as int].active is None && comm_free_from(ops@, old(runners)@[c as int].op_idx as int)
            && int_ops_from(env.dispatch.handler_map(), ops@, old(runners)@[c as int].op_idx as int)) ==> (r is Ok
            <==> int_run_dropping(
            env.dispatch.handler_map(),
            old(runners)@[c as int].ctx.scopes(),
            ops@,
            old(runners)@[c as int].op_idx as int,
            bucket_drops(dies_at@),
        ) is Some),
{
    let n = runners.len();
    let ghost rs0 = runners@;
    let ghost d0 = done@;
    let mut runner = runners.remove(c);
    assert(runner == rs0[c as int]);
    std::mem::swap(&mut mem.hbm, &mut runner.ctx.mem.hbm);
    assert(runner.ctx.scopes() == rs0[c as int].ctx.scopes());
    let mut outbox: Vec<(usize, Tile)> = Vec::new();
    let poll = runner.step(ops, env, incoming, dies_at, &mut outbox);
    std::mem::swap(&mut mem.hbm, &mut runner.ctx.mem.hbm);
    let ghost m0 = messages@;
    proof {
        assert(runner.ctx.core_id == c);
        assert(rs0[c as int].ctx.core_id == c);
    }
    while outbox.len() > 0
        invariant
            queues_unique(messages@),
            forall|s: usize, d: usize| s != c ==> #[trigger] queue_of(messages@, s, d) == queue_of(m0, s, d),
        decreases outbox@.len(),
    {
        let (dst, t) = outbox.remove(0);
        push_message(messages, c, dst, t);
    }
    let mut finished = false;
    match &poll {
        Ok(Poll::Block(src)) => {
            waiting.push((c, *src));
        },
        Ok(Poll::Done) => {
            finished = true;
        },
        Err(_) => {},
    }
    if finished {
        std::mem::swap(&mut runner.ctx.mem.lx_scratchpads[c], &mut mem.lx_scratchpads[c]);
        done.set(c, true);
    }
    runners.insert(c, runner);
    proof {
        assert(runners@ =~= rs0.update(c as int, runner));
        assert(done@ =~= d0.update(c as int, finished));
        lemma_total_update(rs0, d0, ops@.len() as int, 0, c as int, runner, finished);
        let p_old = runner_potential(rs0[c as int], ops@.len() as int);
        assert((ops@.len() - rs0[c as int].op_idx) * big() >= 0) by (nonlinear_arith)
            requires
                rs0[c as int].op_idx <= ops@.len(),
        ;
        assert forall|k: int| 0 <= k < n && k != c implies runners@[k] == rs0[k] && done@[k] == d0[k] by {}
    }
    proof {
        assert(poll_unit(poll) == match poll {
            Ok(_) => Ok::<(), String>(()),
            Err(e) => Err(e),
        });
    }
    match poll {
        Ok(_) => Ok(()),
        Err(e) => Err(e),
    }
}


fn any_live(done: &Vec<bool>) -> (b: bool)
    ensures
        b == exists|c: int| 0 <= c < done@.len() && !done@[c],
{
    let mut i: usize = 0;
    while i < done.len()
        invariant
            0 <= i <= done@.len(),
            forall|c: int| 0 <= c < i ==> done@[c],
        decreases done@.len() - i,
    {
        if !done[i] {
            return true;
        }
        i = i + 1;
    }
    false
}

/// Core `c`'s run of `ops` from its initial context can end in `res`: a
/// sequence of contexts [`runner_trace`] allows, starting on core `c` with
/// the inputs bound (exactly, when they are all scalars or indices).
pub open spec fn core_runs<'a, F: FloatArith>(
    env: ExecutionEnv<'a, F>,
    ops: Seq<Operation>,
    inputs: Seq<(String, Value)>,
    c: int,
    res: Result<(), String>,
) -> bool {
    exists|cs: Seq<CoreContext>|
        #[trigger] runner_trace(env, ops, 0, dead_drops(ops), cs, res) && cs[0].core_id == c && (plain_inputs(inputs)
            ==> cs[0].scopes() == seq![inputs_map(inputs)])
}

/// `scopes` is one scope binding, under each key of the inputs, a value
/// with the view of the input bound there last.
pub open spec fn scopes_hold_inputs(scopes: Seq<Map<Seq<char>, Value>>, ps: Seq<(String, Value)>) -> bool {
    &&& scopes.len() == 1
    &&& forall|k: Seq<char>| #[trigger] scopes[0].contains_key(k) <==> inputs_map(ps).contains_key(k)
    &&& forall|k: Seq<char>| #[trigger] scopes[0].contains_key(k) ==> scopes[0][k]@ == inputs_map(ps)[k]@
}

/// The core group the inputs give a reduce op: its first operand bound to a
/// tile and its second to a tuple of core ids.
pub open spec fn input_reduce_group(ps: Seq<(String, Value)>, op: Operation) -> Option<Seq<usize>> {
    let m = inputs_map(ps);
    if op.operands@.len() >= 2 && m.contains_key(normalize(op.operands@[0]@)) && m.contains_key(
        normalize(op.operands@[1]@),
    ) {
        match (m[normalize(op.operands@[0]@)], m[normalize(op.operands@[1]@)]) {
            (Value::Tile(_), Value::Tuple(items)) => if forall|i: int|
                0 <= i < items@.len() ==> (#[trigger] core_id_of(items@[i])) is Some {
                Some(Seq::new(items@.len(), |i: int| core_id_of(items@[i])->0))
            } else {
                None
            },
            _ => None,
        }
    } else {
        None
    }
}

/// Values with one view denote the same core id.
proof fn lemma_view_core_id(a: Value, b: Value)
    requires
        a@ == b@,
    ensures
        core_id_of(a) == core_id_of(b),
        a is Tile <==> b is Tile,
        b is Tuple ==> a is Tuple && a->Tuple_0@.len() == b->Tuple_0@.len() && forall|i: int|
            0 <= i < b->Tuple_0@.len() ==> (#[trigger] a->Tuple_0@[i])@ == b->Tuple_0@[i]@,
{
    match (a, b) {
        (Value::Tuple(x), Value::Tuple(y)) => {
            assert(value_view(a)->Tuple_0.len() == x@.len());
            assert(value_view(b)->Tuple_0.len() == y@.len());
            assert forall|i: int| 0 <= i < y@.len() implies (#[trigger] x@[i])@ == y@[i]@ by {
                assert(value_view(a)->Tuple_0[i] == value_view(b)->Tuple_0[i]);
                assert(value_view(a)->Tuple_0[i] == value_view(x@[i]));
                assert(value_view(b)->Tuple_0[i] == value_view(y@[i]));
            }
        },
        _ => {},
    }
}

/// A context holding the inputs reads the core group the inputs give.
proof fn lemma_reduce_operands_from_inputs(ctx: CoreContext, ps: Seq<(String, Value)>, op: Operation)
    requires
        scopes_hold_inputs(ctx.scopes(), ps),
        input_reduce_group(ps, op) is Some,
    ensures
        reduce_operands(ctx, op) matches Some(tg) && tg.1 == input_reduce_group(ps, op)->0,
{
    let m = inputs_map(ps);
    let k0 = normalize(op.operands@[0]@);
    let k1 = normalize(op.operands@[1]@);
    let sc = ctx.scopes();
    assert(sc[0].contains_key(k0) && sc[0].contains_key(k1));
    assert(sc.last() == sc[0]);
    assert(ctx.lookup(op.operands@[0]@) == Some(sc[0][k0]));
    assert(ctx.lookup(op.operands@[1]@) == Some(sc[0][k1]));
    lemma_view_core_id(sc[0][k0], m[k0]);
    lemma_view_core_id(sc[0][k1], m[k1]);
    let items = sc[0][k1]->Tuple_0;
    let orig = m[k1]->Tuple_0;
    assert forall|i: int| 0 <= i < items@.len() implies core_id_of(#[trigger] items@[i]) == core_id_of(orig@[i]) by {
        lemma_view_core_id(items@[i], orig@[i]);
    }
    assert(Seq::new(items@.len(), |i: int| core_id_of(items@[i])->0) =~= Seq::new(orig@.len(), |i: int| core_id_of(orig@[i])->0));
}

/// The ring predecessor a core whose next op is a fresh reduce parks on:
/// when the op's operands are a tile and a core group of two or more that
/// holds the core.
pub open spec fn fresh_park_src(ctx: CoreContext, op: Operation) -> Option<usize> {
    if op.op_type@ == "ktdp.reduce"@ {
        match reduce_operands(ctx, op) {
            Some(tg) => match group_pos(tg.1, ctx.core_id, 0) {
                Some(pos) => if tg.1.len() > 1 {
                    Some(ring_prev(tg.1, pos))
                } else {
                    None
                },
                None => None,
            },
            None => None,
        }
    } else {
        None
    }
}

/// Every input value is a scalar or an index.
pub open spec fn plain_inputs(ps: Seq<(String, Value)>) -> bool {
    forall|i: int| 0 <= i < ps.len() ==> ((#[trigger] ps[i]).1 is Scalar || ps[i].1 is Index)
}

/// The bindings the inputs make, in order, each under its key.
pub open spec fn inputs_map(ps: Seq<(String, Value)>) -> Map<Seq<char>, Value>
    decreases ps.len(),
{
    if ps.len() == 0 {
        Map::empty()
    } else {
        inputs_map(ps.drop_last()).insert(normalize(ps.last().0@), ps.last().1)
    }
}

/// The keys of the names whose life ends at top-level op `i` of `ops`.
pub open spec fn dead_keys(ops: Seq<Operation>, i: int) -> Set<Seq<char>> {
    Set::new(|k: Seq<char>| exists|n: Seq<char>| dies_index(ops, n) == Some(i) && #[trigger] normalize(n) == k)
}

/// Op by op, the keys of the names whose life ends there.
pub open spec fn dead_drops(ops: Seq<Operation>) -> Seq<Set<Seq<char>>> {
    Seq::new(ops.len(), |i: int| dead_keys(ops, i))
}

/// The buckets of [`compute_dies_at`] drop exactly the names whose life ends
/// at each op.
proof fn lemma_dies_at_drops(ops: Seq<Operation>, d: Seq<Vec<String>>)
    requires
        d.len() == ops.len(),
        forall|i: int, n: Seq<char>| 0 <= i < d.len() ==> (#[trigger] in_bucket(d, i, n) <==> dies_index(ops, n) == Some(i)),
    ensures
        bucket_drops(d) == dead_drops(ops),
{
    assert forall|i: int| 0 <= i < d.len() implies #[trigger] bucket_keys(d, i) == dead_keys(ops, i) by {
        assert forall|k: Seq<char>| bucket_keys(d, i).contains(k) implies dead_keys(ops, i).contains(k) by {
            let y = choose|y: int| 0 <= y < d[i]@.len() && normalize((#[trigger] d[i]@[y])@) == k;
            let n = d[i]@[y]@;
            assert(in_bucket(d, i, n));
            assert(normalize(n) == k);
        }
        assert forall|k: Seq<char>| dead_keys(ops, i).contains(k) implies bucket_keys(d, i).contains(k) by {
            let n = choose|n: Seq<char>| dies_index(ops, n) == Some(i) && #[trigger] normalize(n) == k;
            assert(in_bucket(d, i, n));
            let y = choose|y: int| 0 <= y < d[i]@.len() && #[trigger] d[i]@[y]@ == n;
            assert(normalize((d[i]@[y])@) == k);
        }
        assert(bucket_keys(d, i) =~= dead_keys(ops, i));
    }
    assert(bucket_drops(d) =~= dead_drops(ops));
}

/// Build core `core_id`'s runner: a context over its own hierarchy holding
/// this core's LX (taken out of `mem`, which keeps a fresh one in its place
/// until the core finishes), with the input pointers bound.
fn make_runner(
    core_id: usize,
    grid: &GridExecutor,
    mem: &mut SpyreMemoryHierarchy,
    n: usize,
    input_ptrs: &[(String, Value)],
) -> (r: CoreRunner)
    requires
        core_id < n,
        core_id < grid.num_cores || (grid.grid_shape.0 > 0 && grid.grid_shape.1 > 0 && grid.grid_shape.0
            * grid.grid_shape.1 <= usize::MAX),
        grid.num_cores == grid.grid_shape.0 * grid.grid_shape.1 * grid.grid_shape.2,
        core_id < old(mem).lx_scratchpads@.len(),
        0 <= old(mem).lx_scratchpads@[core_id as int].used <= old(mem).lx_scratchpads@[core_id as int].capacity,
    ensures
        r.wf(0),
        r.ctx.core_id == core_id,
        r.ctx.mem.lx_scratchpads@.len() == n,
        r.op_idx == 0,
        r.active is None,
        final(mem).lx_scratchpads@.len() == old(mem).lx_scratchpads@.len(),
        final(mem).num_cores == old(mem).num_cores,
        forall|k: int| 0 <= k < old(mem).lx_scratchpads@.len() && k != core_id ==> final(mem).lx_scratchpads@[k]
            == old(mem).lx_scratchpads@[k],
        plain_inputs(input_ptrs@) ==> r.ctx.scopes() == seq![inputs_map(input_ptrs@)],
        scopes_hold_inputs(r.ctx.scopes(), input_ptrs@),
{
    let mut own = SpyreMemoryHierarchy::new(n);
    std::mem::swap(&mut own.lx_scratchpads[core_id], &mut mem.lx_scratchpads[core_id]);
    proof {
        let nx = grid.grid_shape.0 as int;
        let ny = grid.grid_shape.1 as int;
        let nz = grid.grid_shape.2 as int;
        if core_id < grid.num_cores {
            assert(nx > 0 && ny > 0 && nx * ny <= nx * ny * nz) by (nonlinear_arith)
                requires
                    nx * ny * nz >= 1,
                    nx >= 0,
                    ny >= 0,
                    nz >= 0,
            ;
        }
    }
    let pos = grid.linear_to_grid(core_id);
    let mut ctx = CoreContext::new(core_id, pos, own);
    let mut i: usize = 0;
    assert(input_ptrs@.take(0) =~= Seq::<(String, Value)>::empty());
    assert(scopes_hold_inputs(ctx.scopes(), input_ptrs@.take(0)));
    while i < input_ptrs.len()
        invariant
            ctx.wf(),
            ctx.core_id == core_id,
            ctx.mem.lx_scratchpads@.len() == n,
            0 <= i <= input_ptrs@.len(),
            plain_inputs(input_ptrs@) ==> ctx.scopes() == seq![inputs_map(input_ptrs@.take(i as int))],
            scopes_hold_inputs(ctx.scopes(), input_ptrs@.take(i as int)),
        decreases input_ptrs@.len() - i,
    {
        let v = input_ptrs[i].1.clone();
        proof {
            crate::interpreter::lemma_plain_view_eq(v, input_ptrs@[i as int].1);
            assert(input_ptrs@.take(i + 1).drop_last() =~= input_ptrs@.take(i as int));
        }
        ctx.set_value(input_ptrs[i].0.as_str(), v);
        proof {
            let ps1 = input_ptrs@.take(i + 1);
            let key = normalize(input_ptrs@[i as int].0@);
            assert(inputs_map(ps1) == inputs_map(input_ptrs@.take(i as int)).insert(key, input_ptrs@[i as int].1));
            assert forall|k: Seq<char>| #[trigger] ctx.scopes()[0].contains_key(k) ==> ctx.scopes()[0][k]@ == inputs_map(ps1)[k]@ by {
                if k != key && ctx.scopes()[0].contains_key(k) {
                    assert(inputs_map(input_ptrs@.take(i as int)).contains_key(k));
                }
            }
        }
        i = i + 1;
    }
    assert(input_ptrs@.take(input_ptrs@.len() as int) =~= input_ptrs@);
    CoreRunner { ctx, op_idx: 0, active: None }
}

/// `core {c} waiting on recv from core {src}` for one parked core.
pub open spec fn wait_entry_text(e: (usize, usize)) -> Seq<char> {
    "core "@ + crate::text::nat_decimal(e.0 as nat) + " waiting on recv from core "@ + crate::text::nat_decimal(
        e.1 as nat,
    )
}

/// The entries of `w`, in order, joined by `; `.
pub open spec fn waits_text(w: Seq<(usize, usize)>) -> Seq<char>
    decreases w.len(),
{
    if w.len() == 0 {
        Seq::empty()
    } else if w.len() == 1 {
        wait_entry_text(w[0])
    } else {
        waits_text(w.drop_last()) + "; "@ + wait_entry_text(w.last())
    }
}

/// The deadlock report for the parked cores `waiting` (core, awaited source).
pub fn deadlock_report(waiting: &Vec<(usize, usize)>) -> (m: String)
    ensures
        m@ == "Deadlock detected: "@ + waits_text(waiting@),
{
    let mut msg = String::from_str("Deadlock detected: ");
    proof {
        reveal_strlit("Deadlock detected: ");
        reveal_strlit("; ");
        reveal_strlit("core ");
        reveal_strlit(" waiting on recv from core ");
    }
    let mut i: usize = 0;
    while i < waiting.len()
        invariant
            0 <= i <= waiting@.len(),
            msg@ == "Deadlock detected: "@ + waits_text(waiting@.subrange(0, i as int)),
        decreases waiting@.len() - i,
    {
        let ghost before = msg@;
        if i > 0 {
            msg.append("; ");
        }
        msg.append("core ");
        msg.append(crate::text::usize_to_decimal(waiting[i].0).as_str());
        msg.append(" waiting on recv from core ");
        msg.append(crate::text::usize_to_decimal(waiting[i].1).as_str());
        proof {
            let sub = waiting@.subrange(0, i + 1);
            assert(sub.drop_last() =~= waiting@.subrange(0, i as int));
            assert(sub.last() == waiting@[i as int]);
            if i == 0 {
                assert(waits_text(waiting@.subrange(0, 0)) =~= Seq::<char>::empty());
                assert(msg@ =~= "Deadlock detected: "@ + waits_text(sub));
            } else {
                assert(msg@ =~= "Deadlock detected: "@ + waits_text(sub));
            }
        }
        i = i + 1;
    }
    assert(waiting@.subrange(0, waiting@.len() as int) =~= waiting@);
    msg
}

/// Core `c` is parked on a receive from a core whose next tile to `c` is
/// queued, so it can be resumed.
pub open spec fn deliverable(w: Seq<(usize, usize)>, ms: Seq<(usize, usize, Vec<Tile>)>, c: usize) -> bool {
    match waiting_pos(w, c) {
        Some(i) => queue_of(ms, w[i].1, c).len() > 0,
        None => false,
    }
}

/// One delivery round: in core order, resume each live core whose awaited
/// tile is queued, handing it the oldest such tile. Returns whether any core
/// was resumed; when none was, no live core could be (and nothing changed),
/// which is a deadlock.
#[verifier::rlimit(60)]
fn deliver_round<F: FloatArith>(
    n: usize,
    runners: &mut Vec<CoreRunner>,
    done: &mut Vec<bool>,
    messages: &mut Vec<(usize, usize, Vec<Tile>)>,
    waiting: &mut Vec<(usize, usize)>,
    mem: &mut SpyreMemoryHierarchy,
    ops: &Vec<Operation>,
    env: &ExecutionEnv<F>,
    dies_at: &Vec<Vec<String>>,
) -> (r: Result<bool, String>)
    requires
        env.dispatch.wf(),
        old(mem).lx_scratchpads@.len() >= n,
        sched_inv(old(runners)@, old(done)@, n as int, n as int, ops@.len() as int, true),
        queues_unique(old(messages)@),
        ops@.len() == 0 ==> forall|k: int| 0 <= k < n ==> #[trigger] old(done)@[k],
    ensures
        final(mem).lx_scratchpads@.len() == old(mem).lx_scratchpads@.len(),
        final(mem).num_cores == old(mem).num_cores,
        r is Ok ==> sched_inv(final(runners)@, final(done)@, n as int, n as int, ops@.len() as int, true),
        queues_unique(final(messages)@),
        r is Ok ==> (ops@.len() == 0 ==> forall|k: int| 0 <= k < n ==> #[trigger] final(done)@[k]),
        r is Ok ==> total_potential(final(runners)@, final(done)@, ops@.len() as int, 0) <= total_potential(
            old(runners)@,
            old(done)@,
            ops@.len() as int,
            0,
        ),
        r == Ok::<bool, String>(true) ==> total_potential(final(runners)@, final(done)@, ops@.len() as int, 0)
            < total_potential(old(runners)@, old(done)@, ops@.len() as int, 0),
        r == Ok::<bool, String>(false) <==> (r is Ok && forall|c: int|
            0 <= c < n && !old(done)@[c] ==> !deliverable(old(waiting)@, old(messages)@, c as usize)),
        r == Ok::<bool, String>(false) ==> final(waiting)@ == old(waiting)@ && final(done)@ == old(done)@,
        (forall|c: int| 0 <= c < n && !old(done)@[c] ==> !deliverable(old(waiting)@, old(messages)@, c as usize))
            ==> r == Ok::<bool, String>(false),
{
    let ghost none_ready = forall|c: int|
        0 <= c < n && !old(done)@[c] ==> !deliverable(old(waiting)@, old(messages)@, c as usize);
    let len = ops.len();
    let ghost t0 = total_potential(runners@, done@, len as int, 0);
    let ghost w0 = waiting@;
    let ghost m0 = messages@;
    let ghost d0 = done@;
    let mut progressed = false;
    let mut c: usize = 0;
    while c < n
        invariant
            0 <= c <= n,
            len == ops@.len(),
            env.dispatch.wf(),
            mem.lx_scratchpads@.len() >= n,
            mem.lx_scratchpads@.len() == old(mem).lx_scratchpads@.len(),
            mem.num_cores == old(mem).num_cores,
            sched_inv(runners@, done@, n as int, n as int, len as int, true),
            total_potential(runners@, done@, len as int, 0) <= t0,
            t0 == total_potential(old(runners)@, old(done)@, len as int, 0),
            progressed ==> total_potential(runners@, done@, len as int, 0) < t0,
            queues_unique(messages@),
            len == 0 ==> forall|k: int| 0 <= k < n ==> #[trigger] done@[k],
            w0 == old(waiting)@,
            m0 == old(messages)@,
            d0 == old(done)@,
            !progressed ==> waiting@ == w0 && done@ == d0 && forall|s: usize, d: usize|
                #[trigger] queue_of(messages@, s, d) == queue_of(m0, s, d),
            !progressed ==> forall|k: int| 0 <= k < c && !d0[k] ==> !deliverable(w0, m0, k as usize),
            progressed ==> exists|k: int| 0 <= k < n && !d0[k] && deliverable(w0, m0, k as usize),
            none_ready == forall|k: int| 0 <= k < n && !d0[k] ==> !deliverable(w0, m0, k as usize),
            none_ready ==> !progressed,
        decreases n - c,
    {
        let ghost pre_progressed = progressed;
        if !done[c] {
            let _n_waiting = waiting.len();
            proof {
                lemma_waiting_pos_range(waiting@, c);
            }
            if let Some(wi) = find_waiting(waiting, c) {
                let src = waiting[wi].1;
                let ghost mq = messages@;
                let popped = pop_message(messages, src, c);
                if let Some(tile) = popped {
                    proof {
                        if !pre_progressed {
                            assert(waiting@ == w0);
                            assert(waiting_pos(w0, c) == Some(wi as int));
                            assert(w0[wi as int].1 == src);
                            assert(queue_of(mq, src, c).len() > 0);
                            assert(queue_of(mq, src, c) == queue_of(m0, src, c));
                            assert(queue_of(m0, w0[wi as int].1, c).len() > 0);
                            assert(deliverable(w0, m0, c));
                        }
                    }
                    waiting.remove(wi);
                    let ghost before_rs = runners@;
                    let ghost before_done = done@;
                    advance(c, Some(tile), runners, done, messages, waiting, mem, ops, env, dies_at)?;
                    proof {
                        assert forall|k: int| 0 <= k < n && !done@[k] implies (#[trigger] runners@[k]).active is Some by {
                            if k != c {
                                assert(runners@[k] == before_rs[k]);
                                assert(done@[k] == before_done[k]);
                            }
                        }
                    }
                    progressed = true;
                } else {
                    proof {
                        if !pre_progressed {
                            assert(queue_of(mq, src, c) == queue_of(m0, src, c));
                            assert(!deliverable(w0, m0, c));
                        }
                    }
                }
            } else {
                assert(!pre_progressed ==> !deliverable(w0, m0, c));
            }
        }
        c = c + 1;
    }
    Ok(progressed)
}

/// Cores the scheduler runs: the grid's, and at least one.
pub open spec fn run_cores(grid: GridExecutor) -> int {
    if grid.num_cores == 0 {
        1
    } else {
        grid.num_cores as int
    }
}

/// Drive every core of `grid` through `ops` to completion, delivering the
/// tiles cores send each other; `input_ptrs` are bound on every core first.
/// Each core's LX is the matching scratchpad of `mem`; HBM is shared. Fails
/// with the first error a core hits, or with a deadlock report when parked
/// cores remain and no queued tile can resume any of them.
pub fn execute_with_communication<F: FloatArith>(
    grid: &GridExecutor,
    mem: &mut SpyreMemoryHierarchy,
    ops: &Vec<Operation>,
    input_ptrs: &[(String, Value)],
    dispatch: &Dispatch,
    floats: &F,
) -> (r: Result<(), String>)
    requires
        dispatch.wf(),
        grid.num_cores == grid.grid_shape.0 * grid.grid_shape.1 * grid.grid_shape.2,
        grid.num_cores == 0 ==> grid.grid_shape.0 > 0 && grid.grid_shape.1 > 0 && grid.grid_shape.0
            * grid.grid_shape.1 <= usize::MAX,
        old(mem).lx_scratchpads@.len() >= run_cores(*grid),
        forall|c: int| 0 <= c < old(mem).lx_scratchpads@.len() ==> 0 <= (#[trigger] old(mem).lx_scratchpads@[c]).used
            <= old(mem).lx_scratchpads@[c].capacity,
    ensures
        final(mem).lx_scratchpads@.len() == old(mem).lx_scratchpads@.len(),
        final(mem).num_cores == old(mem).num_cores,
        ops@.len() == 0 ==> r is Ok,
        // a program of integer arithmetic over scalar or index inputs: every
        // core runs it in order, dropping each name once its life ends, and
        // the run succeeds exactly when that in-order run does
        (comm_free_from(ops@, 0) && int_ops_from(dispatch.handler_map(), ops@, 0) && plain_inputs(input_ptrs@))
            ==> (r is Ok <==> int_run_dropping(
            dispatch.handler_map(),
            seq![inputs_map(input_ptrs@)],
            ops@,
            0,
            dead_drops(ops@),
        ) is Some),
        // a program without reduces: it succeeds only when every core's
        // in-order run can succeed, and fails only with the error some
        // core's in-order run can end in
        comm_free_from(ops@, 0) ==> (r is Ok ==> forall|c: int|
            0 <= c < run_cores(*grid) ==> #[trigger] core_runs(
                (ExecutionEnv { dispatch: dispatch, grid: grid, floats: floats }),
                ops@,
                input_ptrs@,
                c,
                Ok(()),
            )),
        // a single core whose first op is a reduce over a ring of two or more
        // that holds it parks waiting on its ring predecessor, another core,
        // which never sends: the run ends with the deadlock report
        (run_cores(*grid) == 1 && ops@.len() > 0 && ops@[0].op_type@ == "ktdp.reduce"@ && input_reduce_group(
            input_ptrs@,
            ops@[0],
        ) is Some) ==> ({
            let g = input_reduce_group(input_ptrs@, ops@[0])->0;
            (group_pos(g, 0, 0) is Some && g.len() > 1 && ring_prev(g, group_pos(g, 0, 0)->0) != 0) ==> (r matches Err(
                m,
            ) && m@ == "Deadlock detected: "@ + waits_text(seq![(0usize, ring_prev(g, group_pos(g, 0, 0)->0))]))
        }),
        comm_free_from(ops@, 0) ==> (r is Err ==> exists|c: int|
            0 <= c < run_cores(*grid) && #[trigger] core_runs(
                (ExecutionEnv { dispatch: dispatch, grid: grid, floats: floats }),
                ops@,
                input_ptrs@,
                c,
                r,
            )),
{
    let env = ExecutionEnv::new(dispatch, grid, floats);
    assert(env == (ExecutionEnv { dispatch: dispatch, grid: grid, floats: floats }));
    let ghost hm = dispatch.handler_map();
    let ghost init = seq![inputs_map(input_ptrs@)];
    let ghost ante = comm_free_from(ops@, 0) && int_ops_from(hm, ops@, 0) && plain_inputs(input_ptrs@);
    let ghost runs = int_run_dropping(hm, init, ops@, 0, dead_drops(ops@)) is Some;
    let ghost grp = input_reduce_group(input_ptrs@, ops@[0]);
    let ghost dl = run_cores(*grid) == 1 && ops@.len() > 0 && ops@[0].op_type@ == "ktdp.reduce"@ && grp is Some
        && group_pos(grp->0, 0, 0) is Some && grp->0.len() > 1 && ring_prev(grp->0, group_pos(grp->0, 0, 0)->0) != 0;
    let ghost prev = ring_prev(grp->0, group_pos(grp->0, 0, 0)->0);
    let n = if grid.num_cores == 0 {
        1
    } else {
        grid.num_cores
    };
    let len = ops.len();
    let dies_at = compute_dies_at(ops);
    proof {
        lemma_dies_at_drops(ops@, dies_at@);
    }
    let mut runners: Vec<CoreRunner> = Vec::new();
    let mut done: Vec<bool> = Vec::new();
    let mut c: usize = 0;
    while c < n
        invariant
            0 <= c <= n,
            n == run_cores(*grid),
            grid.num_cores == grid.grid_shape.0 * grid.grid_shape.1 * grid.grid_shape.2,
            grid.num_cores == 0 ==> grid.grid_shape.0 > 0 && grid.grid_shape.1 > 0 && grid.grid_shape.0
                * grid.grid_shape.1 <= usize::MAX,
            len == ops@.len(),
            mem.lx_scratchpads@.len() == old(mem).lx_scratchpads@.len(),
            mem.num_cores == old(mem).num_cores,
            old(mem).lx_scratchpads@.len() >= n,
            forall|k: int| c <= k < mem.lx_scratchpads@.len() ==> 0 <= (#[trigger] mem.lx_scratchpads@[k]).used
                <= mem.lx_scratchpads@[k].capacity,
            sched_inv(runners@, done@, c as int, n as int, len as int, false),
            forall|k: int| 0 <= k < c ==> !(#[trigger] done@[k]),
            forall|k: int| 0 <= k < c ==> (#[trigger] runners@[k]).op_idx == 0 && runners@[k].active is None,
            ante == (comm_free_from(ops@, 0) && int_ops_from(hm, ops@, 0) && plain_inputs(input_ptrs@)),
            init == seq![inputs_map(input_ptrs@)],
            hm == dispatch.handler_map(),
            plain_inputs(input_ptrs@) ==> forall|k: int| 0 <= k < c ==> (#[trigger] runners@[k]).ctx.scopes() == init,
            forall|k: int| 0 <= k < c ==> scopes_hold_inputs((#[trigger] runners@[k]).ctx.scopes(), input_ptrs@),
        decreases n - c,
    {
        let runner = make_runner(c, grid, mem, n, input_ptrs);
        let ghost old_rs = runners@;
        let ghost rg = runner;
        runners.push(runner);
        done.push(false);
        proof {
            let rs = runners@;
            assert forall|k: int| 0 <= k < c + 1 && !done@[k] implies (#[trigger] rs[k]).wf(len as int) by {
                if k < c {
                    assert(rs[k] == old_rs[k]);
                }
            }
            assert forall|k: int| 0 <= k < c + 1 implies (#[trigger] rs[k]).ctx.core_id == k by {
                if k < c {
                    assert(rs[k] == old_rs[k]);
                }
            }
            assert forall|k: int| 0 <= k < c + 1 implies (#[trigger] rs[k]).ctx.mem.lx_scratchpads@.len() == n by {
                if k < c {
                    assert(rs[k] == old_rs[k]);
                } else {
                    assert(rs[k] == rg);
                }
            }
            assert(sched_inv(rs, done@, c + 1, n as int, len as int, false));
            assert forall|k: int| plain_inputs(input_ptrs@) && 0 <= k < c + 1 implies (#[trigger] rs[k]).ctx.scopes() == init by {
                if k < c {
                    assert(rs[k] == old_rs[k]);
                }
            }
            assert forall|k: int| 0 <= k < c + 1 implies scopes_hold_inputs((#[trigger] rs[k]).ctx.scopes(), input_ptrs@) by {
                if k < c {
                    assert(rs[k] == old_rs[k]);
                }
            }
        }
        c = c + 1;
    }
    let mut messages: Vec<(usize, usize, Vec<Tile>)> = Vec::new();
    assert(queues_unique(messages@));
    let mut waiting: Vec<(usize, usize)> = Vec::new();
    // First pass: run every core to its first park (or to the end).
    let mut c: usize = 0;
    while c < n
        invariant
            0 <= c <= n,
            len == ops@.len(),
            env.dispatch.wf(),
            mem.lx_scratchpads@.len() >= n,
            mem.lx_scratchpads@.len() == old(mem).lx_scratchpads@.len(),
            mem.num_cores == old(mem).num_cores,
            sched_inv(runners@, done@, n as int, n as int, len as int, false),
            forall|k: int| c <= k < n ==> !(#[trigger] done@[k]),
            forall|k: int| 0 <= k < c && !done@[k] ==> (#[trigger] runners@[k]).active is Some,
            queues_unique(messages@),
            forall|k: int| c <= k < n ==> (#[trigger] runners@[k]).op_idx == 0 && runners@[k].active is None,
            len == 0 ==> forall|k: int| 0 <= k < c ==> #[trigger] done@[k],
            comm_free_from(ops@, 0) ==> forall|k: int| 0 <= k < c ==> #[trigger] done@[k],
            hm == env.dispatch.handler_map(),
            hm == dispatch.handler_map(),
            init == seq![inputs_map(input_ptrs@)],
            ante == (comm_free_from(ops@, 0) && int_ops_from(hm, ops@, 0) && plain_inputs(input_ptrs@)),
            runs == (int_run_dropping(hm, init, ops@, 0, dead_drops(ops@)) is Some),
            bucket_drops(dies_at@) == dead_drops(ops@),
            plain_inputs(input_ptrs@) ==> forall|k: int| c <= k < n ==> (#[trigger] runners@[k]).ctx.scopes() == init,
            ante && c > 0 ==> runs,
            env == (ExecutionEnv { dispatch: dispatch, grid: grid, floats: floats }),
            n == run_cores(*grid),
            comm_free_from(ops@, 0) ==> forall|k: int| 0 <= k < c ==> #[trigger] core_runs(env, ops@, input_ptrs@, k, Ok(())),
            forall|k: int| c <= k < n ==> scopes_hold_inputs((#[trigger] runners@[k]).ctx.scopes(), input_ptrs@),
            dl == (run_cores(*grid) == 1 && ops@.len() > 0 && ops@[0].op_type@ == "ktdp.reduce"@ && grp is Some
                && group_pos(grp->0, 0, 0) is Some && grp->0.len() > 1 && ring_prev(grp->0, group_pos(grp->0, 0, 0)->0) != 0),
            grp == input_reduce_group(input_ptrs@, ops@[0]),
            prev == ring_prev(grp->0, group_pos(grp->0, 0, 0)->0),
            dl && c == 0 ==> waiting@.len() == 0 && forall|s: usize, d: usize| #[trigger] queue_of(messages@, s, d).len() == 0,
            dl && c == 1 ==> waiting@ == seq![(0usize, prev)] && queue_of(messages@, prev, 0).len() == 0 && !done@[0],
        decreases n - c,
    {
        proof {
            if dl && c == 0 {
                lemma_reduce_operands_from_inputs(runners@[0].ctx, input_ptrs@, ops@[0]);
                assert(runners@[0].ctx.core_id == 0);
                assert(fresh_park_src(runners@[0].ctx, ops@[0]) == Some(prev));
            }
        }
        let ghost d0 = done@;
        let ghost rs0 = runners@;
        let adv = advance(c, None, &mut runners, &mut done, &mut messages, &mut waiting, mem, ops, &env, &dies_at);
        if let Err(e) = adv {
            proof {
                if comm_free_from(ops@, 0) {
                    assert(rs0[c as int].op_idx == 0 && rs0[c as int].active is None);
                    let cs = choose|cs: Seq<CoreContext>|
                        #[trigger] runner_trace(env, ops@, rs0[c as int].op_idx as int, bucket_drops(dies_at@), cs, adv)
                            && cs[0].scopes() == rs0[c as int].ctx.scopes() && cs[0].core_id == c;
                    assert(runner_trace(env, ops@, 0, dead_drops(ops@), cs, Err::<(), String>(e)));
                    assert(core_runs(env, ops@, input_ptrs@, c as int, Err::<(), String>(e)));
                }
            }
            return Err(e);
        }
        proof {
            assert forall|k: int| 0 <= k < c && comm_free_from(ops@, 0) implies #[trigger] done@[k] by {
                assert(done@[k] == d0[k]);
            }
            assert forall|k: int| plain_inputs(input_ptrs@) && c + 1 <= k < n implies (#[trigger] runners@[k]).ctx.scopes() == init by {
                assert(runners@[k] == rs0[k]);
            }
            assert forall|k: int| c + 1 <= k < n implies scopes_hold_inputs((#[trigger] runners@[k]).ctx.scopes(), input_ptrs@) by {
                assert(runners@[k] == rs0[k]);
            }
            if comm_free_from(ops@, 0) {
                assert(rs0[c as int].op_idx == 0 && rs0[c as int].active is None);
                let cs = choose|cs: Seq<CoreContext>|
                    #[trigger] runner_trace(env, ops@, rs0[c as int].op_idx as int, bucket_drops(dies_at@), cs, adv)
                        && cs[0].scopes() == rs0[c as int].ctx.scopes() && cs[0].core_id == c;
                assert(runner_trace(env, ops@, 0, dead_drops(ops@), cs, adv));
                assert(runner_trace(env, ops@, 0, dead_drops(ops@), cs, Ok::<(), String>(())));
                assert(core_runs(env, ops@, input_ptrs@, c as int, Ok(())));
                assert forall|k: int| 0 <= k < c + 1 implies #[trigger] core_runs(env, ops@, input_ptrs@, k, Ok(())) by {}
            }
        }
        c = c + 1;
    }
    // Deliver queued tiles and resume parked cores until every core is done.
    while any_live(&done)
        invariant
            len == ops@.len(),
            env.dispatch.wf(),
            mem.lx_scratchpads@.len() >= n,
            mem.lx_scratchpads@.len() == old(mem).lx_scratchpads@.len(),
            mem.num_cores == old(mem).num_cores,
            sched_inv(runners@, done@, n as int, n as int, len as int, true),
            queues_unique(messages@),
            len == 0 ==> forall|k: int| 0 <= k < n ==> #[trigger] done@[k],
            hm == dispatch.handler_map(),
            init == seq![inputs_map(input_ptrs@)],
            ante == (comm_free_from(ops@, 0) && int_ops_from(hm, ops@, 0) && plain_inputs(input_ptrs@)),
            runs == (int_run_dropping(hm, init, ops@, 0, dead_drops(ops@)) is Some),
            ante ==> runs,
            ante ==> forall|k: int| 0 <= k < n ==> #[trigger] done@[k],
            done@.len() == n,
            env == (ExecutionEnv { dispatch: dispatch, grid: grid, floats: floats }),
            n == run_cores(*grid),
            comm_free_from(ops@, 0) ==> forall|k: int| 0 <= k < n ==> #[trigger] done@[k],
            comm_free_from(ops@, 0) ==> forall|k: int| 0 <= k < n ==> #[trigger] core_runs(env, ops@, input_ptrs@, k, Ok(())),
            dl == (run_cores(*grid) == 1 && ops@.len() > 0 && ops@[0].op_type@ == "ktdp.reduce"@ && grp is Some
                && group_pos(grp->0, 0, 0) is Some && grp->0.len() > 1 && ring_prev(grp->0, group_pos(grp->0, 0, 0)->0) != 0),
            grp == input_reduce_group(input_ptrs@, ops@[0]),
            prev == ring_prev(grp->0, group_pos(grp->0, 0, 0)->0),
            dl ==> waiting@ == seq![(0usize, prev)] && queue_of(messages@, prev, 0).len() == 0 && !done@[0],
        decreases total_potential(runners@, done@, len as int, 0),
    {
        let ghost t0 = total_potential(runners@, done@, len as int, 0);
        proof {
            if dl {
                assert(waiting@.drop_last() =~= Seq::<(usize, usize)>::empty());
                assert(waiting_pos(waiting@.drop_last(), 0) is None);
                assert(waiting_pos(waiting@, 0) == Some(0int));
                assert(!deliverable(waiting@, messages@, 0));
                assert forall|k: int| 0 <= k < n && !done@[k] implies !deliverable(waiting@, messages@, k as usize) by {}
            }
        }
        let progressed = deliver_round(n, &mut runners, &mut done, &mut messages, &mut waiting, mem, ops, &env, &dies_at)?;
        if !progressed {
            return Err(deadlock_report(&waiting));
        }
        proof {
            lemma_total_nonneg_live(runners@, done@, len as int);
        }
    }
    Ok(())
}

proof fn lemma_total_nonneg_live(rs: Seq<CoreRunner>, done: Seq<bool>, len: int)
    requires
        rs.len() == done.len(),
        forall|c: int| 0 <= c < rs.len() && !done[c] ==> (#[trigger] rs[c]).wf(len),
    ensures
        total_potential(rs, done, len, 0) >= 0,
{
    lemma_total_nonneg_from(rs, done, len, 0);
}

proof fn lemma_total_nonneg_from(rs: Seq<CoreRunner>, done: Seq<bool>, len: int, k: int)
    requires
        rs.len() == done.len(),
        forall|c: int| 0 <= c < rs.len() && !done[c] ==> (#[trigger] rs[c]).wf(len),
    ensures
        total_potential(rs, done, len, k) >= 0,
    decreases rs.len() - k,
{
    if 0 <= k < rs.len() {
        lemma_total_nonneg_from(rs, done, len, k + 1);
        if !done[k] {
            assert(rs[k].wf(len));
            assert((len - rs[k].op_idx) * big() >= 0) by (nonlinear_arith)
                requires
                    rs[k].op_idx <= len,
            ;
        }
    }
}

/// Run a comm-free function body for the single grid core `tile` to
/// completion (no cross-core delivery): a park is an error.
pub fn execute_function_single_tile<F: FloatArith>(
    grid: &GridExecutor,
    mem: &mut SpyreMemoryHierarchy,
    ops: &Vec<Operation>,
    input_ptrs: &[(String, Value)],
    dispatch: &Dispatch,
    floats: &F,
    tile: usize,
) -> (r: Result<(), String>)
    requires
        dispatch.wf(),
        tile < grid.num_cores,
        grid.num_cores == grid.grid_shape.0 * grid.grid_shape.1 * grid.grid_shape.2,
        tile < old(mem).lx_scratchpads@.len(),
        0 <= old(mem).lx_scratchpads@[tile as int].used <= old(mem).lx_scratchpads@[tile as int].capacity,
    ensures
        final(mem).lx_scratchpads@.len() == old(mem).lx_scratchpads@.len(),
        final(mem).num_cores == old(mem).num_cores,
        ops@.len() == 0 ==> r is Ok,
{
    let env = ExecutionEnv::new(dispatch, grid, floats);
    let dies_at = compute_dies_at(ops);
    let n = mem.lx_scratchpads.len();
    let mut runner = make_runner(tile, grid, mem, n, input_ptrs);
    std::mem::swap(&mut mem.hbm, &mut runner.ctx.mem.hbm);
    let mut outbox: Vec<(usize, Tile)> = Vec::new();
    let poll = runner.step(ops, &env, None, &dies_at, &mut outbox);
    std::mem::swap(&mut mem.hbm, &mut runner.ctx.mem.hbm);
    std::mem::swap(&mut runner.ctx.mem.lx_scratchpads[tile], &mut mem.lx_scratchpads[tile]);
    match poll? {
        Poll::Done => Ok(()),
        Poll::Block(_) => Err(String::from_str("single-tile: unexpected block in a comm-free node")),
    }
}

} // verus!
