//! Metal backend decisions and code generation: the matmul acceleration tier
//! of a GPU (from its name), the matmul backend chosen for a problem size,
//! fused matmul epilogues, and the lowering of an element-wise KTIR kernel to
//! a Metal Shading Language source string (pure text emission, no GPU).

use vstd::prelude::*;
use crate::dtypes::{DType, spec_dtype_name};
use crate::ir::{Attr, IRFunction, IRModule, Operation, attr_lookup};
use crate::scan::{contains_seq, is_digit, digit, contains, find_char, slice_chars, parse_u64, digits_value, all_digits};
use crate::text::{str_to_chars, chars_to_string};
use crate::context::{normalize, normalize_name};
use crate::keyed::{keys_unique, entries_map, lemma_index_of, lemma_update_value, lemma_push_fresh, lemma_empty, find_key};

verus! {

// ---------------------------------------------------------------------------
// matmul tiers
// ---------------------------------------------------------------------------

/// GPU matmul acceleration tier, worst to best.
#[derive(Clone, Copy, Debug, PartialEq, Eq, PartialOrd, Ord, Structural)]
pub enum MatmulTier {
    Naive,
    Simdgroup,
    Nax,
}

/// Position of a tier in the worst-to-best order.
pub open spec fn tier_rank(t: MatmulTier) -> int {
    match t {
        MatmulTier::Naive => 0,
        MatmulTier::Simdgroup => 1,
        MatmulTier::Nax => 2,
    }
}

fn rank(t: MatmulTier) -> (r: u8)
    ensures
        r == tier_rank(t),
{
    match t {
        MatmulTier::Naive => 0,
        MatmulTier::Simdgroup => 1,
        MatmulTier::Nax => 2,
    }
}

/// The best tier whose kernel is emitted.
pub const HIGHEST_IMPLEMENTED: MatmulTier = MatmulTier::Nax;

/// Whether a tier's kernel is emitted: every tier is (`Naive` on the CPU,
/// `Simdgroup` for M1–M4 GPUs, `Nax` for M5+).
pub fn tier_implemented(tier: MatmulTier) -> (b: bool)
    ensures
        b,
{
    match tier {
        MatmulTier::Naive | MatmulTier::Simdgroup | MatmulTier::Nax => true,
    }
}

/// The text after the first `M` of `name`, up to the next `M`.
pub open spec fn after_first_m(name: Seq<char>) -> Option<Seq<char>> {
    if name.contains('M') {
        let i = choose|i: int| 0 <= i < name.len() && name[i] == 'M' && forall|j: int| 0 <= j < i ==> name[j] != 'M';
        let rest = name.subrange(i + 1, name.len() as int);
        if rest.contains('M') {
            let k = choose|k: int| 0 <= k < rest.len() && rest[k] == 'M' && forall|j: int| 0 <= j < k ==> rest[j] != 'M';
            Some(rest.subrange(0, k))
        } else {
            Some(rest)
        }
    } else {
        None
    }
}

/// Length of the run of digits at the start of `s`.
pub open spec fn digit_run(s: Seq<char>) -> int
    decreases s.len(),
{
    if s.len() > 0 && is_digit(s[0]) {
        1 + digit_run(s.drop_first())
    } else {
        0
    }
}

/// The `M<n>` generation of an Apple GPU name such as `"Apple M5 Pro"`: the
/// digits right after the first `M`, for names that mention `Apple`.
pub open spec fn spec_apple_m_generation(name: Seq<char>) -> Option<u32> {
    match after_first_m(name) {
        Some(rest) => {
            let d = rest.subrange(0, digit_run(rest));
            if d.len() > 0 && contains_seq(name, "Apple"@) && digits_value(d) <= u32::MAX {
                Some(digits_value(d) as u32)
            } else {
                None
            }
        },
        None => None,
    }
}

proof fn lemma_digit_run(s: Seq<char>)
    ensures
        0 <= digit_run(s) <= s.len(),
        forall|j: int| 0 <= j < digit_run(s) ==> is_digit(s[j]),
        digit_run(s) < s.len() ==> !is_digit(s[digit_run(s)]),
    decreases s.len(),
{
    if s.len() > 0 && is_digit(s[0]) {
        lemma_digit_run(s.drop_first());
        assert forall|j: int| 0 <= j < digit_run(s) implies is_digit(s[j]) by {
            if j > 0 {
                assert(s[j] == s.drop_first()[j - 1]);
            }
        }
    }
}

proof fn lemma_digit_run_at(s: Seq<char>, k: int)
    requires
        0 <= k <= s.len(),
        forall|j: int| 0 <= j < k ==> is_digit(s[j]),
        k < s.len() ==> !is_digit(s[k]),
    ensures
        digit_run(s) == k,
    decreases s.len(),
{
    if k > 0 {
        assert forall|j: int| 0 <= j < k - 1 implies is_digit(s.drop_first()[j]) by {
            assert(s.drop_first()[j] == s[j + 1]);
        }
        lemma_digit_run_at(s.drop_first(), k - 1);
    }
}

/// See [`spec_apple_m_generation`].
pub fn apple_m_generation(name: &str) -> (g: Option<u32>)
    ensures
        g == spec_apple_m_generation(name@),
{
    let cs = str_to_chars(name);
    let i = match find_char(&cs, 0, 'M') {
        Some(i) => i,
        None => {
            return None;
        },
    };
    let n = cs.len();
    let rest_all = slice_chars(&cs, i + 1, n);
    let rest = match find_char(&rest_all, 0, 'M') {
        Some(k) => slice_chars(&rest_all, 0, k),
        None => slice_chars(&rest_all, 0, rest_all.len()),
    };
    proof {
        assert(rest_all@.subrange(0, rest_all@.len() as int) =~= rest_all@);
        assert(after_first_m(name@) == Some(rest@));
    }
    let mut k: usize = 0;
    while k < rest.len() && digit(rest[k])
        invariant
            0 <= k <= rest@.len(),
            forall|j: int| 0 <= j < k ==> is_digit(rest@[j]),
        decreases rest@.len() - k,
    {
        k = k + 1;
    }
    proof {
        lemma_digit_run_at(rest@, k as int);
    }
    let digits = slice_chars(&rest, 0, k);
    if digits.len() == 0 || !contains(&cs, "Apple") {
        return None;
    }
    match parse_u64(&digits) {
        Some(v) => {
            if v <= 0xffff_ffffu64 {
                Some(v as u32)
            } else {
                None
            }
        },
        None => {
            assert(all_digits(digits@));
            None
        },
    }
}

/// The matmul tier a Metal device supports, from its name: Apple `M5` and
/// later -> `Nax`; any other Apple GPU -> `Simdgroup`; anything else ->
/// `Naive`.
pub open spec fn spec_device_matmul_tier(name: Seq<char>) -> MatmulTier {
    match spec_apple_m_generation(name) {
        Some(g) => if g >= 5 {
            MatmulTier::Nax
        } else {
            MatmulTier::Simdgroup
        },
        None => if contains_seq(name, "Apple"@) {
            MatmulTier::Simdgroup
        } else {
            MatmulTier::Naive
        },
    }
}

/// See [`spec_device_matmul_tier`].
pub fn device_matmul_tier(device_name: &str) -> (t: MatmulTier)
    ensures
        t == spec_device_matmul_tier(device_name@),
{
    if let Some(generation) = apple_m_generation(device_name) {
        return if generation >= 5 {
            MatmulTier::Nax
        } else {
            MatmulTier::Simdgroup
        };
    }
    let cs = str_to_chars(device_name);
    if contains(&cs, "Apple") {
        return MatmulTier::Simdgroup;
    }
    MatmulTier::Naive
}

/// The tier used for a device: the best implemented tier not above its
/// capability. Every tier is implemented, so this is the capability itself.
pub fn effective_matmul_tier(device_name: &str) -> (t: MatmulTier)
    ensures
        t == spec_device_matmul_tier(device_name@),
        tier_rank(t) <= tier_rank(spec_device_matmul_tier(device_name@)),
{
    let cap = device_matmul_tier(device_name);
    let order = [MatmulTier::Nax, MatmulTier::Simdgroup, MatmulTier::Naive];
    let mut i: usize = 0;
    while i < 3
        invariant
            0 <= i <= 3,
            order@ == seq![MatmulTier::Nax, MatmulTier::Simdgroup, MatmulTier::Naive],
            cap == spec_device_matmul_tier(device_name@),
            forall|j: int| 0 <= j < i ==> tier_rank(#[trigger] order@[j]) > tier_rank(cap),
        decreases 3 - i,
    {
        let t = order[i];
        if rank(t) <= rank(cap) && tier_implemented(t) {
            proof {
                if i > 0 {
                    assert(tier_rank(order@[i - 1]) > tier_rank(cap));
                }
                assert(tier_rank(t) == tier_rank(cap));
                assert(t == cap) by {
                    match t {
                        MatmulTier::Naive => {},
                        MatmulTier::Simdgroup => {},
                        MatmulTier::Nax => {},
                    }
                }
            }
            return t;
        }
        i = i + 1;
    }
    MatmulTier::Naive
}

// ---------------------------------------------------------------------------
// matmul backend gate
// ---------------------------------------------------------------------------

/// Which implementation runs a matmul.
#[derive(Clone, Copy, Debug, PartialEq, Eq, Structural)]
pub enum MatmulBackend {
    /// The CPU BLAS path (f32).
    Accelerate,
    /// The `simdgroup_float8x8` GPU GEMM (M1–M4).
    Simdgroup,
    /// The NAX `matmul2d` tensor-engine GEMM (M5+).
    Nax,
}

impl MatmulBackend {
    /// Whether this backend runs on the GPU.
    pub fn is_gpu(self) -> (b: bool)
        ensures
            b == (self == MatmulBackend::Nax || self == MatmulBackend::Simdgroup),
    {
        match self {
            MatmulBackend::Nax | MatmulBackend::Simdgroup => true,
            MatmulBackend::Accelerate => false,
        }
    }
}

/// Minimum number of 128x256 output blocks before a matmul goes to the GPU.
pub const NAX_MIN_BLOCKS: usize = 32;
/// Minimum K depth before a matmul goes to the GPU.
pub const NAX_MIN_K: usize = 256;

/// `ceil(a / b)` for positive `b`.
pub open spec fn ceil_div(a: int, b: int) -> int {
    (a + b - 1) / b
}

/// The backend for `C(m x k . k x n)` on the named device: the NAX engine
/// when the device's tier is `Nax` and the problem has at least
/// [`NAX_MIN_BLOCKS`] output blocks and depth at least [`NAX_MIN_K`];
/// Accelerate otherwise.
pub open spec fn spec_choose_matmul_backend(name: Seq<char>, m: int, k: int, n: int) -> MatmulBackend {
    if spec_device_matmul_tier(name) == MatmulTier::Nax && ceil_div(m, 128) * ceil_div(n, 256)
        >= NAX_MIN_BLOCKS && k >= NAX_MIN_K {
        MatmulBackend::Nax
    } else {
        MatmulBackend::Accelerate
    }
}

/// See [`spec_choose_matmul_backend`].
pub fn choose_matmul_backend(device_name: &str, m: usize, k: usize, n: usize) -> (b: MatmulBackend)
    ensures
        b == spec_choose_matmul_backend(device_name@, m as int, k as int, n as int),
{
    let mb: u128 = (m as u128 + 127) / 128;
    let nb: u128 = (n as u128 + 255) / 256;
    assert(mb * nb <= 0x400_0000_0000_0000 * 0x400_0000_0000_0000) by (nonlinear_arith)
        requires
            mb <= 0x400_0000_0000_0000,
            nb <= 0x400_0000_0000_0000,
    ;
    let blocks: u128 = mb * nb;
    let big_enough = blocks >= NAX_MIN_BLOCKS as u128 && k >= NAX_MIN_K;
    match effective_matmul_tier(device_name) {
        MatmulTier::Nax => {
            if big_enough {
                MatmulBackend::Nax
            } else {
                MatmulBackend::Accelerate
            }
        },
        _ => MatmulBackend::Accelerate,
    }
}

// ---------------------------------------------------------------------------
// fused matmul epilogues
// ---------------------------------------------------------------------------

/// A fused matmul epilogue `out = act(c BINOP e)`: `binop` 0 none, 1 add,
/// 2 mul, 3 sub, 4 max, 5 min; `act` 0 none, 1 relu, 2 tanh, 3 exp,
/// 4 sigmoid.
#[derive(Clone, Copy, Debug, PartialEq, Eq, Structural)]
pub struct Epilogue {
    pub binop: u32,
    pub act: u32,
}

/// The epilogue of a binary element-wise op name.
pub open spec fn spec_binary_epilogue(op: Seq<char>) -> Option<Epilogue> {
    if op == "linalg.add"@ || op == "arith.addf"@ {
        Some(Epilogue { binop: 1, act: 0 })
    } else if op == "linalg.mul"@ || op == "arith.mulf"@ {
        Some(Epilogue { binop: 2, act: 0 })
    } else if op == "linalg.sub"@ || op == "arith.subf"@ {
        Some(Epilogue { binop: 3, act: 0 })
    } else if op == "linalg.max"@ || op == "arith.maximumf"@ || op == "arith.maxf"@ {
        Some(Epilogue { binop: 4, act: 0 })
    } else if op == "linalg.min"@ || op == "arith.minimumf"@ || op == "arith.minf"@ {
        Some(Epilogue { binop: 5, act: 0 })
    } else {
        None
    }
}

/// The epilogue of a unary activation op name.
pub open spec fn spec_unary_epilogue(op: Seq<char>) -> Option<Epilogue> {
    if op == "math.tanh"@ {
        Some(Epilogue { binop: 0, act: 2 })
    } else if op == "math.exp"@ {
        Some(Epilogue { binop: 0, act: 3 })
    } else {
        None
    }
}

impl Epilogue {
    /// No epilogue: a plain matmul.
    pub fn none() -> (e: Epilogue)
        ensures
            e == (Epilogue { binop: 0, act: 0 }),
    {
        Epilogue { binop: 0, act: 0 }
    }

    /// The epilogue fusing a binary element-wise op (with the other operand
    /// as `e`), or `None` if the op is not fusable.
    pub fn from_binary_op(op_type: &str) -> (r: Option<Epilogue>)
        ensures
            r == spec_binary_epilogue(op_type@),
    {
        let names: [&str; 12] = [
            "linalg.add",
            "arith.addf",
            "linalg.mul",
            "arith.mulf",
            "linalg.sub",
            "arith.subf",
            "linalg.max",
            "arith.maximumf",
            "arith.maxf",
            "linalg.min",
            "arith.minimumf",
            "arith.minf",
        ];
        let codes: [u32; 12] = [1, 1, 2, 2, 3, 3, 4, 4, 4, 5, 5, 5];
        let mut i: usize = 0;
        while i < 12
            invariant
                0 <= i <= 12,
                names@ == seq![
                    "linalg.add",
                    "arith.addf",
                    "linalg.mul",
                    "arith.mulf",
                    "linalg.sub",
                    "arith.subf",
                    "linalg.max",
                    "arith.maximumf",
                    "arith.maxf",
                    "linalg.min",
                    "arith.minimumf",
                    "arith.minf",
                ],
                codes@ == seq![1u32, 1, 2, 2, 3, 3, 4, 4, 4, 5, 5, 5],
                forall|j: int| 0 <= j < i ==> (#[trigger] names@[j])@ != op_type@,
            decreases 12 - i,
        {
            if crate::text::str_eq(names[i], op_type) {
                return Some(Epilogue { binop: codes[i], act: 0 });
            }
            i = i + 1;
        }
        None
    }

    /// The epilogue fusing a unary activation op, or `None`.
    pub fn from_unary_op(op_type: &str) -> (r: Option<Epilogue>)
        ensures
            r == spec_unary_epilogue(op_type@),
    {
        if crate::text::str_eq(op_type, "math.tanh") {
            Some(Epilogue { binop: 0, act: 2 })
        } else if crate::text::str_eq(op_type, "math.exp") {
            Some(Epilogue { binop: 0, act: 3 })
        } else {
            None
        }
    }
}


// ---------------------------------------------------------------------------
// kernel lowering: dataflow
// ---------------------------------------------------------------------------

/// Cap on fused-expression nesting.
pub const MAX_FUSE_DEPTH: usize = 256;

/// Steps a buffer trace follows before giving up.
pub const TRACE_STEPS: usize = 16;

/// Result name (without `%`) -> index of the op defining it; a later
/// definition of the same name wins.
pub open spec fn def_spec(ops: Seq<Operation>) -> Map<Seq<char>, int>
    decreases ops.len(),
{
    if ops.len() == 0 {
        Map::empty()
    } else {
        let m = def_spec(ops.drop_last());
        match ops.last().result {
            Some(r) => m.insert(normalize(r@), ops.len() - 1),
            None => m,
        }
    }
}

proof fn lemma_def_spec_range(ops: Seq<Operation>)
    ensures
        forall|k: Seq<char>| #[trigger] def_spec(ops).contains_key(k) ==> 0 <= def_spec(ops)[k] < ops.len(),
    decreases ops.len(),
{
    if ops.len() > 0 {
        lemma_def_spec_range(ops.drop_last());
        let m = def_spec(ops.drop_last());
        assert forall|k: Seq<char>| #[trigger] def_spec(ops).contains_key(k) implies 0 <= def_spec(
            ops,
        )[k] < ops.len() by {
            match ops.last().result {
                Some(r) => {
                    if k != normalize(r@) {
                        assert(m.contains_key(k));
                    }
                },
                None => {
                    assert(m.contains_key(k));
                },
            }
        }
    }
}

/// The op kinds a buffer trace walks through (each carries what it reads
/// or writes as operand 0).
pub open spec fn is_chain_op(t: Seq<char>) -> bool {
    t == "ktdp.construct_access_tile"@ || t == "ktdp.construct_memory_view"@ || t == "ktdp.load"@
}

/// Follow an SSA value back through `load` / `construct_access_tile` /
/// `construct_memory_view` to the function argument it reads or writes.
pub open spec fn trace_spec(ops: Seq<Operation>, cur: Seq<char>, fuel: nat) -> Option<Seq<char>>
    decreases fuel,
{
    if fuel == 0 {
        None
    } else if !def_spec(ops).contains_key(cur) {
        Some(cur)
    } else {
        let op = ops[def_spec(ops)[cur]];
        if is_chain_op(op.op_type@) && op.operands@.len() > 0 {
            trace_spec(ops, normalize(op.operands@[0]@), (fuel - 1) as nat)
        } else {
            None
        }
    }
}

/// The definitions table of a function body.
pub fn def_map(ops: &Vec<Operation>) -> (d: Vec<(Vec<char>, usize)>)
    ensures
        keys_unique(d@),
        entries_map(d@).dom() == def_spec(ops@).dom(),
        forall|k: Seq<char>| #[trigger] entries_map(d@).contains_key(k) ==> entries_map(d@)[k] as int
            == def_spec(ops@)[k],
{
    let mut d: Vec<(Vec<char>, usize)> = Vec::new();
    proof {
        lemma_empty(d@);
        assert(entries_map(d@).dom() =~= def_spec(ops@.subrange(0, 0)).dom());
    }
    let mut i: usize = 0;
    while i < ops.len()
        invariant
            0 <= i <= ops@.len(),
            keys_unique(d@),
            entries_map(d@).dom() == def_spec(ops@.subrange(0, i as int)).dom(),
            forall|k: Seq<char>| #[trigger] entries_map(d@).contains_key(k) ==> entries_map(d@)[k] as int
                == def_spec(ops@.subrange(0, i as int))[k],
        decreases ops@.len() - i,
    {
        let ghost before = entries_map(d@);
        assert(ops@.subrange(0, i + 1).drop_last() =~= ops@.subrange(0, i as int));
        assert(ops@.subrange(0, i + 1).last() == ops@[i as int]);
        if let Some(r) = &ops[i].result {
            let key = normalize_name(r.as_str());
            match find_key(&d, &key) {
                Some(j) => {
                    proof {
                        lemma_update_value(d@, j as int, (key, i));
                    }
                    d.set(j, (key, i));
                },
                None => {
                    proof {
                        lemma_push_fresh(d@, (key, i));
                    }
                    d.push((key, i));
                },
            }
            proof {
                assert(entries_map(d@) == before.insert(key@, i));
                assert(entries_map(d@).dom() =~= def_spec(ops@.subrange(0, i + 1)).dom());
            }
        } else {
            proof {
                assert(entries_map(d@).dom() =~= def_spec(ops@.subrange(0, i + 1)).dom());
            }
        }
        i = i + 1;
    }
    assert(ops@.subrange(0, ops@.len() as int) =~= ops@);
    d
}

/// The op index defining `key`.
pub fn lookup_def(d: &Vec<(Vec<char>, usize)>, key: &Vec<char>) -> (r: Option<usize>)
    requires
        keys_unique(d@),
    ensures
        r matches Some(i) ==> entries_map(d@).contains_key(key@) && entries_map(d@)[key@] == i,
        r is None ==> !entries_map(d@).contains_key(key@),
{
    match find_key(d, key) {
        Some(j) => {
            proof {
                lemma_index_of(d@, j as int);
            }
            Some(d[j].1)
        },
        None => None,
    }
}

/// `defs` is the definitions table of `ops`.
pub open spec fn defs_of(d: Seq<(Vec<char>, usize)>, ops: Seq<Operation>) -> bool {
    &&& keys_unique(d)
    &&& entries_map(d).dom() == def_spec(ops).dom()
    &&& forall|k: Seq<char>| #[trigger] entries_map(d).contains_key(k) ==> entries_map(d)[k] as int == def_spec(ops)[k]
}

/// Whether `op_type` is one of the ops a buffer trace walks through.
fn chain_op(t: &String) -> (b: bool)
    ensures
        b == is_chain_op(t@),
{
    crate::text::str_eq(t.as_str(), "ktdp.construct_access_tile") || crate::text::str_eq(
        t.as_str(),
        "ktdp.construct_memory_view",
    ) || crate::text::str_eq(t.as_str(), "ktdp.load")
}

/// See [`trace_spec`]: the argument name behind SSA value `name`.
pub fn trace_buffer(name: &Vec<char>, ops: &Vec<Operation>, defs: &Vec<(Vec<char>, usize)>) -> (r: Option<Vec<char>>)
    requires
        defs_of(defs@, ops@),
    ensures
        r matches Some(b) ==> trace_spec(ops@, normalize(name@), TRACE_STEPS as nat) == Some(b@),
        r is None ==> trace_spec(ops@, normalize(name@), TRACE_STEPS as nat) is None,
{
    let mut cur = normalize_chars(name);
    let mut step: usize = 0;
    proof {
        lemma_def_spec_range(ops@);
    }
    while step < TRACE_STEPS
        invariant
            0 <= step <= TRACE_STEPS,
            defs_of(defs@, ops@),
            forall|k: Seq<char>| #[trigger] def_spec(ops@).contains_key(k) ==> 0 <= def_spec(ops@)[k] < ops@.len(),
            trace_spec(ops@, normalize(name@), TRACE_STEPS as nat) == trace_spec(
                ops@,
                cur@,
                (TRACE_STEPS - step) as nat,
            ),
        decreases TRACE_STEPS - step,
    {
        let idx = match lookup_def(defs, &cur) {
            Some(i) => i,
            None => {
                return Some(cur);
            },
        };
        let op = &ops[idx];
        if chain_op(&op.op_type) && op.operands.len() > 0 {
            cur = normalize_chars(&str_to_chars(op.operands[0].as_str()));
        } else {
            return None;
        }
        step = step + 1;
    }
    None
}

/// `name` without its leading `%` sigils.
pub fn normalize_chars(name: &Vec<char>) -> (k: Vec<char>)
    ensures
        k@ == normalize(name@),
{
    let mut i: usize = 0;
    assert(name@.subrange(0, name@.len() as int) =~= name@);
    while i < name.len() && name[i] == '%'
        invariant
            0 <= i <= name@.len(),
            normalize(name@) == normalize(name@.subrange(i as int, name@.len() as int)),
        decreases name@.len() - i,
    {
        assert(name@.subrange(i as int, name@.len() as int).drop_first() =~= name@.subrange(
            i + 1,
            name@.len() as int,
        ));
        i = i + 1;
    }
    slice_chars(name, i, name.len())
}



// ---------------------------------------------------------------------------
// kernel lowering: expressions
// ---------------------------------------------------------------------------

/// Append the characters of `s`.
pub fn push_str(out: &mut Vec<char>, s: &str)
    ensures
        final(out)@ == old(out)@ + s@,
{
    let cs = str_to_chars(s);
    push_chars(out, &cs);
}

/// Append `cs`.
pub fn push_chars(out: &mut Vec<char>, cs: &Vec<char>)
    ensures
        final(out)@ == old(out)@ + cs@,
{
    let mut i: usize = 0;
    while i < cs.len()
        invariant
            0 <= i <= cs@.len(),
            out@ == old(out)@ + cs@.subrange(0, i as int),
        decreases cs@.len() - i,
    {
        out.push(cs[i]);
        i = i + 1;
        assert(out@ =~= old(out)@ + cs@.subrange(0, i as int));
    }
    assert(cs@.subrange(0, cs@.len() as int) =~= cs@);
}

/// Infix operator of a binary element-wise op.
pub open spec fn binop_symbol(t: Seq<char>) -> Option<Seq<char>> {
    if t == "arith.addf"@ {
        Some("+"@)
    } else if t == "arith.subf"@ {
        Some("-"@)
    } else if t == "arith.mulf"@ {
        Some("*"@)
    } else if t == "arith.divf"@ {
        Some("/"@)
    } else if t == "linalg.add"@ {
        Some("+"@)
    } else if t == "linalg.mul"@ {
        Some("*"@)
    } else if t == "linalg.sub"@ {
        Some("-"@)
    } else {
        None
    }
}

/// MSL function of a binary min / max op.
pub open spec fn minmax_fn(t: Seq<char>) -> Option<Seq<char>> {
    if t == "arith.maximumf"@ || t == "arith.maxf"@ {
        Some("max"@)
    } else if t == "arith.minimumf"@ || t == "arith.minf"@ {
        Some("min"@)
    } else {
        None
    }
}

/// MSL intrinsic of a unary math op.
pub open spec fn unary_fn(t: Seq<char>) -> Option<Seq<char>> {
    if t == "arith.absf"@ || t == "math.absf"@ {
        Some("abs"@)
    } else if t == "math.exp"@ {
        Some("exp"@)
    } else if t == "math.log"@ {
        Some("log"@)
    } else if t == "math.sqrt"@ {
        Some("sqrt"@)
    } else if t == "math.sin"@ {
        Some("sin"@)
    } else if t == "math.cos"@ {
        Some("cos"@)
    } else if t == "math.tanh"@ {
        Some("tanh"@)
    } else {
        None
    }
}

/// The MSL expression for operand `name` at fusion depth `depth`: a loaded
/// tile is `<buffer>[gid]`; another defining op is lowered recursively and
/// parenthesized.
pub open spec fn lower_value_spec(ops: Seq<Operation>, name: Seq<char>, depth: int) -> Option<Seq<char>>
    decreases MAX_FUSE_DEPTH + 1 - depth, 0int,
{
    if depth > MAX_FUSE_DEPTH || depth < 0 {
        None
    } else {
        let k = normalize(name);
        if !def_spec(ops).contains_key(k) {
            None
        } else {
            let i = def_spec(ops)[k];
            if !(0 <= i < ops.len()) {
                None
            } else if ops[i].op_type@ == "ktdp.load"@ {
                match trace_spec(ops, k, TRACE_STEPS as nat) {
                    Some(buf) => Some(buf + "[gid]"@),
                    None => None,
                }
            } else {
                match lower_op_spec(ops, ops[i], depth + 1) {
                    Some(e) => Some("("@ + e + ")"@),
                    None => None,
                }
            }
        }
    }
}

/// The MSL expression of an element-wise compute op at fusion depth `depth`.
pub open spec fn lower_op_spec(ops: Seq<Operation>, op: Operation, depth: int) -> Option<Seq<char>>
    decreases MAX_FUSE_DEPTH + 1 - depth, 1int,
{
    let t = op.op_type@;
    let a = if op.operands@.len() > 0 {
        lower_value_spec(ops, op.operands@[0]@, depth)
    } else {
        None
    };
    let b = if op.operands@.len() > 1 {
        lower_value_spec(ops, op.operands@[1]@, depth)
    } else {
        None
    };
    match binop_symbol(t) {
        Some(sym) => match (a, b) {
            (Some(x), Some(y)) => Some(x + " "@ + sym + " "@ + y),
            _ => None,
        },
        None => match minmax_fn(t) {
            Some(f) => match (a, b) {
                (Some(x), Some(y)) => Some(f + "("@ + x + ", "@ + y + ")"@),
                _ => None,
            },
            None => if t == "arith.negf"@ {
                match a {
                    Some(x) => Some("-"@ + x),
                    None => None,
                }
            } else {
                match unary_fn(t) {
                    Some(f) => match a {
                        Some(x) => Some(f + "("@ + x + ")"@),
                        None => None,
                    },
                    None => None,
                }
            },
        },
    }
}

/// Resolve one operand to its MSL sub-expression (see [`lower_value_spec`]).
pub fn lower_value(name: &Vec<char>, ops: &Vec<Operation>, defs: &Vec<(Vec<char>, usize)>, depth: usize) -> (r:
    Result<Vec<char>, String>)
    requires
        defs_of(defs@, ops@),
    ensures
        r matches Ok(e) ==> lower_value_spec(ops@, name@, depth as int) == Some(e@),
        r is Err ==> lower_value_spec(ops@, name@, depth as int) is None,
    decreases MAX_FUSE_DEPTH + 1 - depth, 0int,
{
    if depth > MAX_FUSE_DEPTH {
        return Err(String::from_str("metal: fused expression exceeds max depth"));
    }
    let key = normalize_chars(name);
    let idx = match lookup_def(defs, &key) {
        Some(i) => i,
        None => {
            let mut m = String::from_str("metal: operand ");
            m.append(chars_to_string(name).as_str());
            m.append(" has no defining op");
            return Err(m);
        },
    };
    if idx >= ops.len() {
        return Err(String::from_str("metal: bad definition index"));
    }
    let d = &ops[idx];
    if crate::text::str_eq(d.op_type.as_str(), "ktdp.load") {
        match trace_buffer(&key, ops, defs) {
            Some(buf) => {
                proof {
                    assert(normalize(key@) == key@) by {
                        lemma_normalize_idempotent(name@);
                    }
                }
                let mut out = buf;
                push_str(&mut out, "[gid]");
                Ok(out)
            },
            None => {
                proof {
                    lemma_normalize_idempotent(name@);
                }
                let mut m = String::from_str("metal: operand ");
                m.append(chars_to_string(name).as_str());
                m.append(" is not a loaded buffer");
                Err(m)
            },
        }
    } else {
        let inner = lower_compute_depth(d, ops, defs, depth + 1)?;
        let mut out: Vec<char> = Vec::new();
        push_str(&mut out, "(");
        push_chars(&mut out, &inner);
        push_str(&mut out, ")");
        Ok(out)
    }
}

/// `normalize` is idempotent.
pub proof fn lemma_normalize_idempotent(s: Seq<char>)
    ensures
        normalize(normalize(s)) == normalize(s),
    decreases s.len(),
{
    if s.len() > 0 && s[0] == '%' {
        lemma_normalize_idempotent(s.drop_first());
    }
}

fn operand_expr(op: &Operation, i: usize, ops: &Vec<Operation>, defs: &Vec<(Vec<char>, usize)>, depth: usize) -> (r:
    Result<Vec<char>, String>)
    requires
        defs_of(defs@, ops@),
        depth <= MAX_FUSE_DEPTH + 1,
    ensures
        r matches Ok(e) ==> i < op.operands@.len() && lower_value_spec(ops@, op.operands@[i as int]@, depth as int)
            == Some(e@),
        r is Err ==> i >= op.operands@.len() || lower_value_spec(ops@, op.operands@[i as int]@, depth as int) is None,
    decreases MAX_FUSE_DEPTH + 1 - depth, 1int,
{
    if i >= op.operands.len() {
        let mut m = String::from_str("metal: ");
        m.append(op.op_type.as_str());
        m.append(" missing operand");
        return Err(m);
    }
    let name = str_to_chars(op.operands[i].as_str());
    lower_value(&name, ops, defs, depth)
}

/// The MSL expression of an element-wise compute op (see [`lower_op_spec`]).
pub fn lower_compute_depth(op: &Operation, ops: &Vec<Operation>, defs: &Vec<(Vec<char>, usize)>, depth: usize) -> (r:
    Result<Vec<char>, String>)
    requires
        defs_of(defs@, ops@),
        depth <= MAX_FUSE_DEPTH + 1,
    ensures
        r matches Ok(e) ==> lower_op_spec(ops@, *op, depth as int) == Some(e@),
        r is Err ==> lower_op_spec(ops@, *op, depth as int) is None,
    decreases MAX_FUSE_DEPTH + 1 - depth, 2int,
{
    let t = op.op_type.as_str();
    let sym: Option<&str> = if crate::text::str_eq(t, "arith.addf") {
        Some("+")
    } else if crate::text::str_eq(t, "arith.subf") {
        Some("-")
    } else if crate::text::str_eq(t, "arith.mulf") {
        Some("*")
    } else if crate::text::str_eq(t, "arith.divf") {
        Some("/")
    } else if crate::text::str_eq(t, "linalg.add") {
        Some("+")
    } else if crate::text::str_eq(t, "linalg.mul") {
        Some("*")
    } else if crate::text::str_eq(t, "linalg.sub") {
        Some("-")
    } else {
        None
    };
    if let Some(sy) = sym {
        let a = operand_expr(op, 0, ops, defs, depth)?;
        let b = operand_expr(op, 1, ops, defs, depth)?;
        let mut out = a;
        push_str(&mut out, " ");
        push_str(&mut out, sy);
        push_str(&mut out, " ");
        push_chars(&mut out, &b);
        return Ok(out);
    }
    let mm: Option<&str> = if crate::text::str_eq(t, "arith.maximumf") || crate::text::str_eq(t, "arith.maxf") {
        Some("max")
    } else if crate::text::str_eq(t, "arith.minimumf") || crate::text::str_eq(t, "arith.minf") {
        Some("min")
    } else {
        None
    };
    if let Some(f) = mm {
        let a = operand_expr(op, 0, ops, defs, depth)?;
        let b = operand_expr(op, 1, ops, defs, depth)?;
        let mut out: Vec<char> = Vec::new();
        push_str(&mut out, f);
        push_str(&mut out, "(");
        push_chars(&mut out, &a);
        push_str(&mut out, ", ");
        push_chars(&mut out, &b);
        push_str(&mut out, ")");
        return Ok(out);
    }
    if crate::text::str_eq(t, "arith.negf") {
        let a = operand_expr(op, 0, ops, defs, depth)?;
        let mut out: Vec<char> = Vec::new();
        push_str(&mut out, "-");
        push_chars(&mut out, &a);
        return Ok(out);
    }
    let un: Option<&str> = if crate::text::str_eq(t, "arith.absf") || crate::text::str_eq(t, "math.absf") {
        Some("abs")
    } else if crate::text::str_eq(t, "math.exp") {
        Some("exp")
    } else if crate::text::str_eq(t, "math.log") {
        Some("log")
    } else if crate::text::str_eq(t, "math.sqrt") {
        Some("sqrt")
    } else if crate::text::str_eq(t, "math.sin") {
        Some("sin")
    } else if crate::text::str_eq(t, "math.cos") {
        Some("cos")
    } else if crate::text::str_eq(t, "math.tanh") {
        Some("tanh")
    } else {
        None
    };
    if let Some(f) = un {
        let a = operand_expr(op, 0, ops, defs, depth)?;
        let mut out: Vec<char> = Vec::new();
        push_str(&mut out, f);
        push_str(&mut out, "(");
        push_chars(&mut out, &a);
        push_str(&mut out, ")");
        return Ok(out);
    }
    let mut m = String::from_str("metal: compute op ");
    m.append(t);
    m.append(" not lowerable (element-wise only)");
    Err(m)
}


// ---------------------------------------------------------------------------
// kernel lowering: buffers
// ---------------------------------------------------------------------------

/// The loaded buffers feeding `op`'s operands from index `i` on, appended
/// (first seen first, each once) to `out`; chained compute operands are
/// descended into, up to [`MAX_FUSE_DEPTH`].
pub open spec fn collect_spec(ops: Seq<Operation>, op: Operation, i: int, out: Seq<Seq<char>>, depth: int) -> Seq<
    Seq<char>,
>
    decreases MAX_FUSE_DEPTH + 1 - depth, op.operands@.len() - i,
{
    if depth > MAX_FUSE_DEPTH || depth < 0 || i < 0 || i >= op.operands@.len() {
        out
    } else {
        let k = normalize(op.operands@[i]@);
        let out2 = if def_spec(ops).contains_key(k) && 0 <= def_spec(ops)[k] < ops.len() {
            let d = ops[def_spec(ops)[k]];
            if d.op_type@ == "ktdp.load"@ {
                match trace_spec(ops, k, TRACE_STEPS as nat) {
                    Some(b) => if out.contains(b) {
                        out
                    } else {
                        out.push(b)
                    },
                    None => out,
                }
            } else {
                collect_spec(ops, d, 0, out, depth + 1)
            }
        } else {
            out
        };
        collect_spec(ops, op, i + 1, out2, depth)
    }
}

/// Whether `b` is among `out`.
fn contains_name(out: &Vec<Vec<char>>, b: &Vec<char>) -> (r: bool)
    ensures
        r == out@.map_values(|v: Vec<char>| v@).contains(b@),
{
    let ghost view = out@.map_values(|v: Vec<char>| v@);
    let mut i: usize = 0;
    while i < out.len()
        invariant
            0 <= i <= out@.len(),
            view == out@.map_values(|v: Vec<char>| v@),
            forall|j: int| 0 <= j < i ==> view[j] != b@,
        decreases out@.len() - i,
    {
        if crate::text::chars_eq(&out[i], b) {
            assert(view[i as int] == b@);
            return true;
        }
        i = i + 1;
    }
    false
}

/// See [`collect_spec`].
pub fn collect_bufs(
    op: &Operation,
    ops: &Vec<Operation>,
    defs: &Vec<(Vec<char>, usize)>,
    out: &mut Vec<Vec<char>>,
    depth: usize,
)
    requires
        defs_of(defs@, ops@),
        depth <= MAX_FUSE_DEPTH + 1,
    ensures
        final(out)@.map_values(|v: Vec<char>| v@) == collect_spec(
            ops@,
            *op,
            0,
            old(out)@.map_values(|v: Vec<char>| v@),
            depth as int,
        ),
    decreases MAX_FUSE_DEPTH + 1 - depth, 1int,
{
    if depth > MAX_FUSE_DEPTH {
        return;
    }
    let mut i: usize = 0;
    while i < op.operands.len()
        invariant
            0 <= i <= op.operands@.len(),
            depth <= MAX_FUSE_DEPTH,
            defs_of(defs@, ops@),
            collect_spec(ops@, *op, 0, old(out)@.map_values(|v: Vec<char>| v@), depth as int)
                == collect_spec(ops@, *op, i as int, out@.map_values(|v: Vec<char>| v@), depth as int),
        decreases op.operands@.len() - i,
    {
        let ghost before = out@.map_values(|v: Vec<char>| v@);
        let key = normalize_chars(&str_to_chars(op.operands[i].as_str()));
        match lookup_def(defs, &key) {
            Some(idx) => {
                if idx < ops.len() {
                    let d = &ops[idx];
                    if crate::text::str_eq(d.op_type.as_str(), "ktdp.load") {
                        proof {
                            lemma_normalize_idempotent(op.operands@[i as int]@);
                        }
                        match trace_buffer(&key, ops, defs) {
                            Some(b) => {
                                if !contains_name(out, &b) {
                                    out.push(b);
                                    assert(out@.map_values(|v: Vec<char>| v@) =~= before.push(b@));
                                }
                            },
                            None => {},
                        }
                    } else {
                        collect_bufs(d, ops, defs, out, depth + 1);
                    }
                }
            },
            None => {},
        }
        i = i + 1;
    }
}

/// The dtype named by a `dtype` text, if it names one.
pub open spec fn parse_dtype_spec(s: Seq<char>) -> Option<DType> {
    if exists|d: DType| spec_dtype_name(d) == s {
        Some(choose|d: DType| spec_dtype_name(d) == s)
    } else {
        None
    }
}

/// Element dtype of buffer `buf`: from the `dtype` attribute of the first
/// `ktdp.construct_memory_view` over it (at or after op `i`) that carries a
/// valid one; `f16` when none does.
pub open spec fn buffer_dtype_spec(ops: Seq<Operation>, buf: Seq<char>, i: int) -> DType
    decreases ops.len() - i,
{
    if i < 0 || i >= ops.len() {
        DType::F16
    } else {
        let op = ops[i];
        if op.op_type@ == "ktdp.construct_memory_view"@ && op.operands@.len() > 0 && normalize(
            op.operands@[0]@,
        ) == buf && (attr_lookup(op.attributes@, "dtype"@) matches Some(Attr::Str(dt))
            && parse_dtype_spec(dt@) is Some) {
            parse_dtype_spec(attr_lookup(op.attributes@, "dtype"@)->0->Str_0@)->0
        } else {
            buffer_dtype_spec(ops, buf, i + 1)
        }
    }
}

proof fn lemma_dtype_names_distinct(a: DType, b: DType)
    requires
        spec_dtype_name(a) == spec_dtype_name(b),
    ensures
        a == b,
{
    reveal_strlit("f16");
    reveal_strlit("f32");
    reveal_strlit("i32");
    reveal_strlit("i64");
    reveal_strlit("i1");
    match a {
        DType::F16 => { assert(spec_dtype_name(a)[1] == '1'); },
        _ => {},
    }
    assert(spec_dtype_name(a).len() == spec_dtype_name(b).len());
    if spec_dtype_name(a).len() == 3 {
        assert(spec_dtype_name(a)[0] == spec_dtype_name(b)[0]);
        assert(spec_dtype_name(a)[1] == spec_dtype_name(b)[1]);
    }
}

/// See [`buffer_dtype_spec`].
pub fn buffer_dtype(buf: &Vec<char>, ops: &Vec<Operation>) -> (d: DType)
    ensures
        d == buffer_dtype_spec(ops@, buf@, 0),
{
    let mut i: usize = 0;
    while i < ops.len()
        invariant
            0 <= i <= ops@.len(),
            buffer_dtype_spec(ops@, buf@, 0) == buffer_dtype_spec(ops@, buf@, i as int),
        decreases ops@.len() - i,
    {
        let op = &ops[i];
        if crate::text::str_eq(op.op_type.as_str(), "ktdp.construct_memory_view") && op.operands.len() > 0 {
            let first = normalize_chars(&str_to_chars(op.operands[0].as_str()));
            if crate::text::chars_eq(&first, buf) {
                if let Some(Attr::Str(dt)) = op.get_attr("dtype") {
                    if let Ok(parsed) = DType::parse(dt.as_str()) {
                        proof {
                            assert(exists|d: DType| spec_dtype_name(d) == dt@);
                            let c = choose|d: DType| spec_dtype_name(d) == dt@;
                            lemma_dtype_names_distinct(c, parsed);
                        }
                        return parsed;
                    }
                }
            }
        }
        i = i + 1;
    }
    DType::F16
}

/// The MSL scalar type of a dtype.
pub open spec fn spec_msl_type(dt: DType) -> Seq<char> {
    match dt {
        DType::F16 => "half"@,
        DType::F32 => "float"@,
        DType::I32 => "int"@,
        DType::I64 => "long"@,
        DType::Bool => "bool"@,
    }
}

/// See [`spec_msl_type`].
pub fn msl_type(dt: DType) -> (s: &'static str)
    ensures
        s@ == spec_msl_type(dt),
{
    match dt {
        DType::F16 => "half",
        DType::F32 => "float",
        DType::I32 => "int",
        DType::I64 => "long",
        DType::Bool => "bool",
    }
}


// ---------------------------------------------------------------------------
// kernel lowering: rendering and the entry points
// ---------------------------------------------------------------------------

/// One kernel-argument buffer: the pointer argument's name, whether the
/// kernel writes it, and its element dtype. The order of
/// [`MslKernel::buffers`] is the `[[buffer(i)]]` binding order.
#[derive(Clone, Debug, PartialEq)]
pub struct BufferBinding {
    pub name: String,
    pub is_output: bool,
    pub dtype: DType,
}

/// A lowered Metal kernel: source, name, and buffer bindings in binding
/// order.
#[derive(Clone, Debug)]
pub struct MslKernel {
    pub source: String,
    pub name: String,
    pub buffers: Vec<BufferBinding>,
}

/// A binding as plain values.
pub open spec fn binding_view(b: BufferBinding) -> (Seq<char>, bool, DType) {
    (b.name@, b.is_output, b.dtype)
}

/// Bindings as plain values.
pub open spec fn bindings_view(bs: Seq<BufferBinding>) -> Seq<(Seq<char>, bool, DType)> {
    bs.map_values(|b: BufferBinding| binding_view(b))
}

/// The parameter line of buffer `b` bound at index `i`.
pub open spec fn buffer_line(b: (Seq<char>, bool, DType), i: nat) -> Seq<char> {
    "    "@ + (if b.1 {
        "device"@
    } else {
        "device const"@
    }) + " "@ + spec_msl_type(b.2) + "* "@ + b.0 + " [[buffer("@ + crate::text::nat_decimal(i)
        + ")]],\n"@
}

/// The parameter lines of the first `n` buffers.
pub open spec fn params_spec(bs: Seq<(Seq<char>, bool, DType)>, n: nat) -> Seq<char>
    decreases n,
{
    if n == 0 || n > bs.len() {
        Seq::empty()
    } else {
        params_spec(bs, (n - 1) as nat) + buffer_line(bs[n - 1], (n - 1) as nat)
    }
}

/// The MSL source of kernel `name` over buffers `bs` (the last one being the
/// output) computing `expr` per element.
pub open spec fn rendered(name: Seq<char>, bs: Seq<(Seq<char>, bool, DType)>, expr: Seq<char>) -> Seq<char> {
    "#include <metal_stdlib>\nusing namespace metal;\n\n"@ + "kernel void "@ + name + "(\n"@ + params_spec(
        bs,
        bs.len(),
    ) + "    uint gid [[thread_position_in_grid]]\n) {\n"@ + "    "@ + bs.last().0 + "[gid] = "@ + expr
        + ";\n"@ + "}\n"@
}

/// See [`rendered`].
#[verifier::spinoff_prover]
#[verifier::rlimit(40)]
pub fn render_kernel(name: &str, buffers: &Vec<BufferBinding>, expr: &Vec<char>) -> (s: String)
    requires
        buffers@.len() > 0,
    ensures
        s@ == rendered(name@, bindings_view(buffers@), expr@),
{
    let ghost bs = bindings_view(buffers@);
    let mut out: Vec<char> = Vec::new();
    push_str(&mut out, "#include <metal_stdlib>\nusing namespace metal;\n\n");
    push_str(&mut out, "kernel void ");
    push_str(&mut out, name);
    push_str(&mut out, "(\n");
    let ghost head = out@;
    let mut i: usize = 0;
    while i < buffers.len()
        invariant
            0 <= i <= buffers@.len(),
            bs == bindings_view(buffers@),
            out@ == head + params_spec(bs, i as nat),
        decreases buffers@.len() - i,
    {
        let b = &buffers[i];
        push_str(&mut out, "    ");
        if b.is_output {
            push_str(&mut out, "device");
        } else {
            push_str(&mut out, "device const");
        }
        push_str(&mut out, " ");
        push_str(&mut out, msl_type(b.dtype));
        push_str(&mut out, "* ");
        push_str(&mut out, b.name.as_str());
        push_str(&mut out, " [[buffer(");
        push_str(&mut out, crate::text::usize_to_decimal(i).as_str());
        push_str(&mut out, ")]],\n");
        proof {
            assert(bs[i as int] == binding_view(buffers@[i as int]));
            assert(out@ =~= head + params_spec(bs, (i + 1) as nat));
        }
        i = i + 1;
    }
    push_str(&mut out, "    uint gid [[thread_position_in_grid]]\n) {\n");
    push_str(&mut out, "    ");
    let last = buffers.len() - 1;
    push_str(&mut out, buffers[last].name.as_str());
    push_str(&mut out, "[gid] = ");
    push_chars(&mut out, expr);
    push_str(&mut out, ";\n");
    push_str(&mut out, "}\n");
    proof {
        assert(bs.last() == binding_view(buffers@[last as int]));
        assert(out@ =~= rendered(name@, bs, expr@));
    }
    chars_to_string(&out)
}

/// Index of the first function named `name`, at or after `i`.
pub open spec fn first_fn(fs: Seq<IRFunction>, name: Seq<char>, i: int) -> Option<int>
    decreases fs.len() - i,
{
    if i < 0 || i >= fs.len() {
        None
    } else if fs[i].name@ == name {
        Some(i)
    } else {
        first_fn(fs, name, i + 1)
    }
}

/// Index of the first `ktdp.store` op, at or after `i`.
pub open spec fn first_store(ops: Seq<Operation>, i: int) -> Option<int>
    decreases ops.len() - i,
{
    if i < 0 || i >= ops.len() {
        None
    } else if ops[i].op_type@ == "ktdp.store"@ {
        Some(i)
    } else {
        first_store(ops, i + 1)
    }
}

/// What a lowerable element-wise kernel body amounts to: its input buffers
/// (first seen first), its output buffer (the target of its first store),
/// and the fused per-element expression of the stored value.
pub open spec fn kernel_spec(ops: Seq<Operation>) -> Option<(Seq<Seq<char>>, Seq<char>, Seq<char>)> {
    match first_store(ops, 0) {
        Some(si) => {
            let st = ops[si];
            if st.operands@.len() < 2 {
                None
            } else {
                match trace_spec(ops, normalize(st.operands@[1]@), TRACE_STEPS as nat) {
                    Some(ob) => {
                        let k = normalize(st.operands@[0]@);
                        if def_spec(ops).contains_key(k) && 0 <= def_spec(ops)[k] < ops.len() {
                            let c = ops[def_spec(ops)[k]];
                            match lower_op_spec(ops, c, 0) {
                                Some(e) => Some((collect_spec(ops, c, 0, Seq::empty(), 0), ob, e)),
                                None => None,
                            }
                        } else {
                            None
                        }
                    },
                    None => None,
                }
            }
        },
        None => None,
    }
}

/// The bindings of a kernel: each input (read-only) then the output, each
/// with its buffer's dtype.
pub open spec fn kernel_bindings(ops: Seq<Operation>, ins: Seq<Seq<char>>, ob: Seq<char>) -> Seq<(Seq<char>, bool, DType)> {
    ins.map_values(|b: Seq<char>| (b, false, buffer_dtype_spec(ops, b, 0))).push(
        (ob, true, buffer_dtype_spec(ops, ob, 0)),
    )
}

/// Lower function `func_name` of `module` to a full [`MslKernel`]: source
/// plus buffer bindings. Fails unless the function is the supported
/// element-wise shape: loads, a tree of element-wise compute ops, one store.
pub fn emit_kernel(module: &IRModule, func_name: &str) -> (r: Result<MslKernel, String>)
    ensures
        r is Ok <==> (first_fn(module.functions@, func_name@, 0) matches Some(fi) && kernel_spec(
            module.functions@[fi].operations@,
        ) is Some),
        r matches Ok(k) ==> ({
            let ops = module.functions@[first_fn(module.functions@, func_name@, 0)->0].operations@;
            let parts = kernel_spec(ops)->0;
            &&& k.name@ == func_name@
            &&& bindings_view(k.buffers@) == kernel_bindings(ops, parts.0, parts.1)
            &&& k.source@ == rendered(func_name@, kernel_bindings(ops, parts.0, parts.1), parts.2)
        }),
{
    // the function
    let mut fi: usize = 0;
    let fs = &module.functions;
    while fi < fs.len() && !crate::text::str_eq(fs[fi].name.as_str(), func_name)
        invariant
            0 <= fi <= fs@.len(),
            first_fn(fs@, func_name@, 0) == first_fn(fs@, func_name@, fi as int),
        decreases fs@.len() - fi,
    {
        fi = fi + 1;
    }
    if fi >= fs.len() {
        let mut m = String::from_str("no function named ");
        m.append(func_name);
        return Err(m);
    }
    let ops = &fs[fi].operations;
    let defs = def_map(ops);
    // its first store
    let mut si: usize = 0;
    while si < ops.len() && !crate::text::str_eq(ops[si].op_type.as_str(), "ktdp.store")
        invariant
            0 <= si <= ops@.len(),
            first_store(ops@, 0) == first_store(ops@, si as int),
        decreases ops@.len() - si,
    {
        si = si + 1;
    }
    if si >= ops.len() {
        return Err(String::from_str("metal: no ktdp.store; only element-wise store kernels are supported"));
    }
    let store = &ops[si];
    if store.operands.len() < 2 {
        return Err(String::from_str("metal: ktdp.store needs (value, access_tile) operands"));
    }
    let out_buf = match trace_buffer(&str_to_chars(store.operands[1].as_str()), ops, &defs) {
        Some(b) => b,
        None => {
            return Err(String::from_str("metal: could not trace the store target back to a pointer argument"));
        },
    };
    let key = normalize_chars(&str_to_chars(store.operands[0].as_str()));
    let ci = match lookup_def(&defs, &key) {
        Some(ci) => ci,
        None => {
            return Err(String::from_str("metal: stored value has no defining op"));
        },
    };
    proof {
        lemma_def_spec_range(ops@);
    }
    let compute = &ops[ci];
    let expr = lower_compute_depth(compute, ops, &defs, 0)?;
    let dtype = buffer_dtype(&out_buf, ops);
    let mut inputs: Vec<Vec<char>> = Vec::new();
    collect_bufs(compute, ops, &defs, &mut inputs, 0);
    assert(inputs@.map_values(|v: Vec<char>| v@) =~= collect_spec(ops@, *compute, 0, Seq::empty(), 0)) by {
        assert(Seq::<Vec<char>>::empty().map_values(|v: Vec<char>| v@) =~= Seq::<Seq<char>>::empty());
    }
    let ghost ins = collect_spec(ops@, *compute, 0, Seq::empty(), 0);
    let mut buffers: Vec<BufferBinding> = Vec::new();
    let mut j: usize = 0;
    while j < inputs.len()
        invariant
            0 <= j <= inputs@.len(),
            ins == inputs@.map_values(|v: Vec<char>| v@),
            bindings_view(buffers@) == ins.subrange(0, j as int).map_values(
                |b: Seq<char>| (b, false, buffer_dtype_spec(ops@, b, 0)),
            ),
        decreases inputs@.len() - j,
    {
        let bdt = buffer_dtype(&inputs[j], ops);
        let ghost before = buffers@;
        let bb = BufferBinding { name: chars_to_string(&inputs[j]), is_output: false, dtype: bdt };
        buffers.push(bb);
        proof {
            let v = bindings_view(buffers@);
            let w = ins.subrange(0, j + 1).map_values(
                |b: Seq<char>| (b, false, buffer_dtype_spec(ops@, b, 0)),
            );
            let w0 = ins.subrange(0, j as int).map_values(
                |b: Seq<char>| (b, false, buffer_dtype_spec(ops@, b, 0)),
            );
            assert(ins[j as int] == inputs@[j as int]@);
            assert(ins.len() == inputs@.len());
            assert(bindings_view(before).len() == before.len());
            assert(w0.len() == j);
            assert(before.len() == j);
            assert(v.len() == buffers@.len());
            assert(v.len() == w.len());
            assert forall|k: int| 0 <= k < v.len() implies v[k] == w[k] by {
                if k < j {
                    assert(buffers@[k] == before[k]);
                    assert(bindings_view(before)[k] == w0[k]);
                } else {
                    assert(buffers@[k] == bb);
                }
            }
            assert(v =~= w);
        }
        j = j + 1;
    }
    buffers.push(BufferBinding { name: chars_to_string(&out_buf), is_output: true, dtype });
    proof {
        assert(ins.subrange(0, ins.len() as int) =~= ins);
        assert(bindings_view(buffers@) =~= kernel_bindings(ops@, ins, out_buf@));
    }
    let source = render_kernel(func_name, &buffers, &expr);
    Ok(MslKernel { source, name: String::from_str(func_name), buffers })
}

/// The MSL source of [`emit_kernel`].
pub fn emit_msl(module: &IRModule, func_name: &str) -> (r: Result<String, String>)
    ensures
        r is Ok <==> (first_fn(module.functions@, func_name@, 0) matches Some(fi) && kernel_spec(
            module.functions@[fi].operations@,
        ) is Some),
        r matches Ok(s) ==> ({
            let ops = module.functions@[first_fn(module.functions@, func_name@, 0)->0].operations@;
            let parts = kernel_spec(ops)->0;
            s@ == rendered(func_name@, kernel_bindings(ops, parts.0, parts.1), parts.2)
        }),
{
    Ok(emit_kernel(module, func_name)?.source)
}


/// The backend gate is monotone: a problem at least as large in every
/// dimension as one routed to the NAX engine is routed there too.
pub proof fn lemma_backend_monotone(name: Seq<char>, m: int, k: int, n: int, m2: int, k2: int, n2: int)
    requires
        0 <= m <= m2,
        0 <= k <= k2,
        0 <= n <= n2,
        spec_choose_matmul_backend(name, m, k, n) == MatmulBackend::Nax,
    ensures
        spec_choose_matmul_backend(name, m2, k2, n2) == MatmulBackend::Nax,
{
    let a = ceil_div(m, 128);
    let b = ceil_div(n, 256);
    let a2 = ceil_div(m2, 128);
    let b2 = ceil_div(n2, 256);
    assert(0 <= a <= a2) by (nonlinear_arith)
        requires
            0 <= m <= m2,
            a == (m + 127) / 128,
            a2 == (m2 + 127) / 128,
    ;
    assert(0 <= b <= b2) by (nonlinear_arith)
        requires
            0 <= n <= n2,
            b == (n + 255) / 256,
            b2 == (n2 + 255) / 256,
    ;
    assert(a * b <= a2 * b2) by (nonlinear_arith)
        requires
            0 <= a <= a2,
            0 <= b <= b2,
    ;
}


/// What the epilogue code `binop` computes from the matmul result `c` and
/// the other operand `e`, per the code table of [`Epilogue`]: 1 adds,
/// 2 multiplies, 3 subtracts, 4 takes the larger, 5 the smaller.
pub open spec fn epilogue_value(binop: u32, c: int, e: int) -> Option<int> {
    if binop == 1 {
        Some(c + e)
    } else if binop == 2 {
        Some(c * e)
    } else if binop == 3 {
        Some(c - e)
    } else if binop == 4 {
        Some(if c >= e { c } else { e })
    } else if binop == 5 {
        Some(if c <= e { c } else { e })
    } else {
        None
    }
}

/// What a fusable binary element-wise op computes from its operands `c`
/// and `e`: the additions, multiplications, subtractions, maxima and minima
/// of the `linalg` and `arith` dialects.
pub open spec fn binary_op_value(op: Seq<char>, c: int, e: int) -> Option<int> {
    if op == "linalg.add"@ || op == "arith.addf"@ {
        Some(c + e)
    } else if op == "linalg.mul"@ || op == "arith.mulf"@ {
        Some(c * e)
    } else if op == "linalg.sub"@ || op == "arith.subf"@ {
        Some(c - e)
    } else if op == "linalg.max"@ || op == "arith.maximumf"@ || op == "arith.maxf"@ {
        Some(if c >= e { c } else { e })
    } else if op == "linalg.min"@ || op == "arith.minimumf"@ || op == "arith.minf"@ {
        Some(if c <= e { c } else { e })
    } else {
        None
    }
}

/// A binary op fuses into a matmul exactly when it is one of the fusable
/// element-wise ops, and its epilogue computes what the op computes: for
/// every matmul result `c` and operand `e`, applying the epilogue's code
/// gives the op's value, with no activation.
pub proof fn lemma_binary_epilogue_computes_the_op(op: Seq<char>, c: int, e: int)
    ensures
        spec_binary_epilogue(op) is Some <==> binary_op_value(op, c, e) is Some,
        spec_binary_epilogue(op) matches Some(ep) ==> ep.act == 0 && epilogue_value(ep.binop, c, e)
            == binary_op_value(op, c, e),
{
}

/// Two fusable ops get the same epilogue exactly when they compute the same
/// function: distinct operations get distinct codes.
pub proof fn lemma_binary_epilogue_codes_distinct(op1: Seq<char>, op2: Seq<char>)
    requires
        spec_binary_epilogue(op1) is Some,
        spec_binary_epilogue(op2) is Some,
    ensures
        spec_binary_epilogue(op1) == spec_binary_epilogue(op2) <==> (forall|c: int, e: int|
            binary_op_value(op1, c, e) == binary_op_value(op2, c, e)),
{
    assert forall|c: int, e: int| spec_binary_epilogue(op1) == spec_binary_epilogue(op2) implies binary_op_value(op1, c, e)
        == binary_op_value(op2, c, e) by {
        lemma_binary_epilogue_computes_the_op(op1, c, e);
        lemma_binary_epilogue_computes_the_op(op2, c, e);
    }
    if forall|c: int, e: int| binary_op_value(op1, c, e) == binary_op_value(op2, c, e) {
        lemma_binary_epilogue_computes_the_op(op1, 2, 3);
        lemma_binary_epilogue_computes_the_op(op2, 2, 3);
        assert(binary_op_value(op1, 2, 3) == binary_op_value(op2, 2, 3));
        let a = spec_binary_epilogue(op1)->0;
        let b = spec_binary_epilogue(op2)->0;
        assert(epilogue_value(a.binop, 2, 3) == epilogue_value(b.binop, 2, 3));
        assert(1 <= a.binop <= 5 && 1 <= b.binop <= 5);
        assert(a.binop == b.binop);
    }
}

/// The op names the lowering and the epilogues compare against, told apart
/// by their lengths and a few of their characters.
proof fn lemma_op_names_distinct()
    ensures
        "linalg.add"@.len() == 10,
        "linalg.add"@[0] == 'l',
        "linalg.add"@[5] == 'g',
        "linalg.add"@[6] == '.',
        "linalg.add"@[7] == 'a',
        "linalg.add"@[8] == 'd',
        "arith.addf"@.len() == 10,
        "arith.addf"@[0] == 'a',
        "arith.addf"@[5] == '.',
        "arith.addf"@[6] == 'a',
        "arith.addf"@[7] == 'd',
        "arith.addf"@[8] == 'd',
        "linalg.mul"@.len() == 10,
        "linalg.mul"@[0] == 'l',
        "linalg.mul"@[5] == 'g',
        "linalg.mul"@[6] == '.',
        "linalg.mul"@[7] == 'm',
        "linalg.mul"@[8] == 'u',
        "arith.mulf"@.len() == 10,
        "arith.mulf"@[0] == 'a',
        "arith.mulf"@[5] == '.',
        "arith.mulf"@[6] == 'm',
        "arith.mulf"@[7] == 'u',
        "arith.mulf"@[8] == 'l',
        "linalg.sub"@.len() == 10,
        "linalg.sub"@[0] == 'l',
        "linalg.sub"@[5] == 'g',
        "linalg.sub"@[6] == '.',
        "linalg.sub"@[7] == 's',
        "linalg.sub"@[8] == 'u',
        "arith.subf"@.len() == 10,
        "arith.subf"@[0] == 'a',
        "arith.subf"@[5] == '.',
        "arith.subf"@[6] == 's',
        "arith.subf"@[7] == 'u',
        "arith.subf"@[8] == 'b',
        "linalg.max"@.len() == 10,
        "linalg.max"@[0] == 'l',
        "linalg.max"@[5] == 'g',
        "linalg.max"@[6] == '.',
        "linalg.max"@[7] == 'm',
        "linalg.max"@[8] == 'a',
        "arith.maximumf"@.len() == 14,
        "arith.maximumf"@[0] == 'a',
        "arith.maximumf"@[5] == '.',
        "arith.maximumf"@[6] == 'm',
        "arith.maximumf"@[7] == 'a',
        "arith.maximumf"@[8] == 'x',
        "arith.maxf"@.len() == 10,
        "arith.maxf"@[0] == 'a',
        "arith.maxf"@[5] == '.',
        "arith.maxf"@[6] == 'm',
        "arith.maxf"@[7] == 'a',
        "arith.maxf"@[8] == 'x',
        "linalg.min"@.len() == 10,
        "linalg.min"@[0] == 'l',
        "linalg.min"@[5] == 'g',
        "linalg.min"@[6] == '.',
        "linalg.min"@[7] == 'm',
        "linalg.min"@[8] == 'i',
        "arith.minimumf"@.len() == 14,
        "arith.minimumf"@[0] == 'a',
        "arith.minimumf"@[5] == '.',
        "arith.minimumf"@[6] == 'm',
        "arith.minimumf"@[7] == 'i',
        "arith.minimumf"@[8] == 'n',
        "arith.minf"@.len() == 10,
        "arith.minf"@[0] == 'a',
        "arith.minf"@[5] == '.',
        "arith.minf"@[6] == 'm',
        "arith.minf"@[7] == 'i',
        "arith.minf"@[8] == 'n',
        "arith.divf"@.len() == 10,
        "arith.divf"@[0] == 'a',
        "arith.divf"@[5] == '.',
        "arith.divf"@[6] == 'd',
        "arith.divf"@[7] == 'i',
        "arith.divf"@[8] == 'v',
        "arith.negf"@.len() == 10,
        "arith.negf"@[0] == 'a',
        "arith.negf"@[5] == '.',
        "arith.negf"@[6] == 'n',
        "arith.negf"@[7] == 'e',
        "arith.negf"@[8] == 'g',
        "arith.absf"@.len() == 10,
        "arith.absf"@[0] == 'a',
        "arith.absf"@[5] == '.',
        "arith.absf"@[6] == 'a',
        "arith.absf"@[7] == 'b',
        "arith.absf"@[8] == 's',
        "math.absf"@.len() == 9,
        "math.absf"@[0] == 'm',
        "math.absf"@[5] == 'a',
        "math.absf"@[6] == 'b',
        "math.absf"@[7] == 's',
        "math.absf"@[8] == 'f',
        "math.exp"@.len() == 8,
        "math.exp"@[0] == 'm',
        "math.exp"@[5] == 'e',
        "math.exp"@[6] == 'x',
        "math.exp"@[7] == 'p',
        "math.log"@.len() == 8,
        "math.log"@[0] == 'm',
        "math.log"@[5] == 'l',
        "math.log"@[6] == 'o',
        "math.log"@[7] == 'g',
        "math.sqrt"@.len() == 9,
        "math.sqrt"@[0] == 'm',
        "math.sqrt"@[5] == 's',
        "math.sqrt"@[6] == 'q',
        "math.sqrt"@[7] == 'r',
        "math.sqrt"@[8] == 't',
        "math.sin"@.len() == 8,
        "math.sin"@[0] == 'm',
        "math.sin"@[5] == 's',
        "math.sin"@[6] == 'i',
        "math.sin"@[7] == 'n',
        "math.cos"@.len() == 8,
        "math.cos"@[0] == 'm',
        "math.cos"@[5] == 'c',
        "math.cos"@[6] == 'o',
        "math.cos"@[7] == 's',
        "math.tanh"@.len() == 9,
        "math.tanh"@[0] == 'm',
        "math.tanh"@[5] == 't',
        "math.tanh"@[6] == 'a',
        "math.tanh"@[7] == 'n',
        "math.tanh"@[8] == 'h',
{
    reveal_strlit("linalg.add");
    assert("linalg.add"@.len() == 10);
    assert("linalg.add"@[0] == 'l');
    assert("linalg.add"@[5] == 'g');
    assert("linalg.add"@[6] == '.');
    assert("linalg.add"@[7] == 'a');
    assert("linalg.add"@[8] == 'd');
    reveal_strlit("arith.addf");
    assert("arith.addf"@.len() == 10);
    assert("arith.addf"@[0] == 'a');
    assert("arith.addf"@[5] == '.');
    assert("arith.addf"@[6] == 'a');
    assert("arith.addf"@[7] == 'd');
    assert("arith.addf"@[8] == 'd');
    reveal_strlit("linalg.mul");
    assert("linalg.mul"@.len() == 10);
    assert("linalg.mul"@[0] == 'l');
    assert("linalg.mul"@[5] == 'g');
    assert("linalg.mul"@[6] == '.');
    assert("linalg.mul"@[7] == 'm');
    assert("linalg.mul"@[8] == 'u');
    reveal_strlit("arith.mulf");
    assert("arith.mulf"@.len() == 10);
    assert("arith.mulf"@[0] == 'a');
    assert("arith.mulf"@[5] == '.');
    assert("arith.mulf"@[6] == 'm');
    assert("arith.mulf"@[7] == 'u');
    assert("arith.mulf"@[8] == 'l');
    reveal_strlit("linalg.sub");
    assert("linalg.sub"@.len() == 10);
    assert("linalg.sub"@[0] == 'l');
    assert("linalg.sub"@[5] == 'g');
    assert("linalg.sub"@[6] == '.');
    assert("linalg.sub"@[7] == 's');
    assert("linalg.sub"@[8] == 'u');
    reveal_strlit("arith.subf");
    assert("arith.subf"@.len() == 10);
    assert("arith.subf"@[0] == 'a');
    assert("arith.subf"@[5] == '.');
    assert("arith.subf"@[6] == 's');
    assert("arith.subf"@[7] == 'u');
    assert("arith.subf"@[8] == 'b');
    reveal_strlit("linalg.max");
    assert("linalg.max"@.len() == 10);
    assert("linalg.max"@[0] == 'l');
    assert("linalg.max"@[5] == 'g');
    assert("linalg.max"@[6] == '.');
    assert("linalg.max"@[7] == 'm');
    assert("linalg.max"@[8] == 'a');
    reveal_strlit("arith.maximumf");
    assert("arith.maximumf"@.len() == 14);
    assert("arith.maximumf"@[0] == 'a');
    assert("arith.maximumf"@[5] == '.');
    assert("arith.maximumf"@[6] == 'm');
    assert("arith.maximumf"@[7] == 'a');
    assert("arith.maximumf"@[8] == 'x');
    reveal_strlit("arith.maxf");
    assert("arith.maxf"@.len() == 10);
    assert("arith.maxf"@[0] == 'a');
    assert("arith.maxf"@[5] == '.');
    assert("arith.maxf"@[6] == 'm');
    assert("arith.maxf"@[7] == 'a');
    assert("arith.maxf"@[8] == 'x');
    reveal_strlit("linalg.min");
    assert("linalg.min"@.len() == 10);
    assert("linalg.min"@[0] == 'l');
    assert("linalg.min"@[5] == 'g');
    assert("linalg.min"@[6] == '.');
    assert("linalg.min"@[7] == 'm');
    assert("linalg.min"@[8] == 'i');
    reveal_strlit("arith.minimumf");
    assert("arith.minimumf"@.len() == 14);
    assert("arith.minimumf"@[0] == 'a');
    assert("arith.minimumf"@[5] == '.');
    assert("arith.minimumf"@[6] == 'm');
    assert("arith.minimumf"@[7] == 'i');
    assert("arith.minimumf"@[8] == 'n');
    reveal_strlit("arith.minf");
    assert("arith.minf"@.len() == 10);
    assert("arith.minf"@[0] == 'a');
    assert("arith.minf"@[5] == '.');
    assert("arith.minf"@[6] == 'm');
    assert("arith.minf"@[7] == 'i');
    assert("arith.minf"@[8] == 'n');
    reveal_strlit("arith.divf");
    assert("arith.divf"@.len() == 10);
    assert("arith.divf"@[0] == 'a');
    assert("arith.divf"@[5] == '.');
    assert("arith.divf"@[6] == 'd');
    assert("arith.divf"@[7] == 'i');
    assert("arith.divf"@[8] == 'v');
    reveal_strlit("arith.negf");
    assert("arith.negf"@.len() == 10);
    assert("arith.negf"@[0] == 'a');
    assert("arith.negf"@[5] == '.');
    assert("arith.negf"@[6] == 'n');
    assert("arith.negf"@[7] == 'e');
    assert("arith.negf"@[8] == 'g');
    reveal_strlit("arith.absf");
    assert("arith.absf"@.len() == 10);
    assert("arith.absf"@[0] == 'a');
    assert("arith.absf"@[5] == '.');
    assert("arith.absf"@[6] == 'a');
    assert("arith.absf"@[7] == 'b');
    assert("arith.absf"@[8] == 's');
    reveal_strlit("math.absf");
    assert("math.absf"@.len() == 9);
    assert("math.absf"@[0] == 'm');
    assert("math.absf"@[5] == 'a');
    assert("math.absf"@[6] == 'b');
    assert("math.absf"@[7] == 's');
    assert("math.absf"@[8] == 'f');
    reveal_strlit("math.exp");
    assert("math.exp"@.len() == 8);
    assert("math.exp"@[0] == 'm');
    assert("math.exp"@[5] == 'e');
    assert("math.exp"@[6] == 'x');
    assert("math.exp"@[7] == 'p');
    reveal_strlit("math.log");
    assert("math.log"@.len() == 8);
    assert("math.log"@[0] == 'm');
    assert("math.log"@[5] == 'l');
    assert("math.log"@[6] == 'o');
    assert("math.log"@[7] == 'g');
    reveal_strlit("math.sqrt");
    assert("math.sqrt"@.len() == 9);
    assert("math.sqrt"@[0] == 'm');
    assert("math.sqrt"@[5] == 's');
    assert("math.sqrt"@[6] == 'q');
    assert("math.sqrt"@[7] == 'r');
    assert("math.sqrt"@[8] == 't');
    reveal_strlit("math.sin");
    assert("math.sin"@.len() == 8);
    assert("math.sin"@[0] == 'm');
    assert("math.sin"@[5] == 's');
    assert("math.sin"@[6] == 'i');
    assert("math.sin"@[7] == 'n');
    reveal_strlit("math.cos");
    assert("math.cos"@.len() == 8);
    assert("math.cos"@[0] == 'm');
    assert("math.cos"@[5] == 'c');
    assert("math.cos"@[6] == 'o');
    assert("math.cos"@[7] == 's');
    reveal_strlit("math.tanh");
    assert("math.tanh"@.len() == 9);
    assert("math.tanh"@[0] == 'm');
    assert("math.tanh"@[5] == 't');
    assert("math.tanh"@[6] == 'a');
    assert("math.tanh"@[7] == 'n');
    assert("math.tanh"@[8] == 'h');
}

/// The MSL operator or function that computes epilogue code `binop`.
pub open spec fn code_msl(binop: u32) -> Seq<char> {
    if binop == 1 {
        "+"@
    } else if binop == 2 {
        "*"@
    } else if binop == 3 {
        "-"@
    } else if binop == 4 {
        "max"@
    } else {
        "min"@
    }
}

/// Fusing a binary op as a matmul epilogue and lowering it to MSL agree:
/// the operator or function the lowering emits for the op is the one that
/// computes the epilogue's code.
pub proof fn lemma_epilogue_agrees_with_lowering(op: Seq<char>)
    requires
        spec_binary_epilogue(op) is Some,
    ensures
        binop_symbol(op) matches Some(sym) ==> sym == code_msl(spec_binary_epilogue(op)->0.binop),
        minmax_fn(op) matches Some(f) ==> f == code_msl(spec_binary_epilogue(op)->0.binop),
{
    lemma_op_names_distinct();
}

/// A `math` dialect op `math.f` (other than `math.absf`) that lowers to MSL
/// lowers to a call of the intrinsic of the same name `f` on its operand's
/// expression: `math.sqrt` to `sqrt(..)`, `math.exp` to `exp(..)`, and so on.
pub proof fn lemma_math_op_lowers_to_its_intrinsic(ops: Seq<Operation>, op: Operation, depth: int, f: Seq<char>)
    requires
        op.op_type@ == "math."@ + f,
        f != "absf"@,
        lower_op_spec(ops, op, depth) is Some,
    ensures
        op.operands@.len() > 0,
        lower_value_spec(ops, op.operands@[0]@, depth) is Some,
        lower_op_spec(ops, op, depth) == Some(f + "("@ + lower_value_spec(ops, op.operands@[0]@, depth)->0 + ")"@),
{
    let t = op.op_type@;
    lemma_op_names_distinct();
    reveal_strlit("math.");
    assert("math."@.len() == 5 && "math."@[0] == 'm');
    assert(t.subrange(0, 5) =~= "math."@);
    assert(f =~= t.subrange(5, t.len() as int));
    lemma_math_prefix_excludes_other_ops(t);
    reveal_strlit("exp");
    reveal_strlit("log");
    reveal_strlit("sqrt");
    reveal_strlit("sin");
    reveal_strlit("cos");
    reveal_strlit("tanh");
    reveal_strlit("absf");
    if t == "math.absf"@ {
        assert(f =~= "absf"@);
    } else if t == "math.exp"@ {
        assert(f =~= "exp"@);
    } else if t == "math.log"@ {
        assert(f =~= "log"@);
    } else if t == "math.sqrt"@ {
        assert(f =~= "sqrt"@);
    } else if t == "math.sin"@ {
        assert(f =~= "sin"@);
    } else if t == "math.cos"@ {
        assert(f =~= "cos"@);
    } else if t == "math.tanh"@ {
        assert(f =~= "tanh"@);
    }
}

/// A `math` op is none of the `arith` or `linalg` ops the lowering handles
/// before the unary intrinsics.
proof fn lemma_math_prefix_excludes_other_ops(t: Seq<char>)
    requires
        t.len() >= 5,
        t.subrange(0, 5) == "math."@,
    ensures
        binop_symbol(t) is None,
        minmax_fn(t) is None,
        t != "arith.negf"@,
        t != "arith.absf"@,
{
    lemma_op_names_distinct();
    reveal_strlit("math.");
    assert("math."@[0] == 'm');
    assert(t[0] == t.subrange(0, 5)[0]);
}

/// `math.absf`, and `arith.absf`, lower to MSL's `abs` on the operand's
/// expression.
pub proof fn lemma_absf_lowers_to_abs(ops: Seq<Operation>, op: Operation, depth: int)
    requires
        op.op_type@ == "math.absf"@ || op.op_type@ == "arith.absf"@,
        lower_op_spec(ops, op, depth) is Some,
    ensures
        op.operands@.len() > 0,
        lower_op_spec(ops, op, depth) == Some("abs"@ + "("@ + lower_value_spec(ops, op.operands@[0]@, depth)->0 + ")"@),
{
    lemma_op_names_distinct();
}

/// The activation an epilogue code `act` applies, per the code table of
/// [`Epilogue`]: 1 relu, 2 tanh, 3 exp, 4 sigmoid.
pub open spec fn act_name(act: u32) -> Option<Seq<char>> {
    if act == 1 {
        Some("relu"@)
    } else if act == 2 {
        Some("tanh"@)
    } else if act == 3 {
        Some("exp"@)
    } else if act == 4 {
        Some("sigmoid"@)
    } else {
        None
    }
}

/// Every op that fuses as an activation epilogue is a `math` op `math.f`
/// whose epilogue applies the activation named `f`, with no binary op.
pub proof fn lemma_unary_epilogue_applies_the_op(op: Seq<char>)
    requires
        spec_unary_epilogue(op) is Some,
    ensures
        op.len() > 5,
        op.subrange(0, 5) == "math."@,
        spec_unary_epilogue(op)->0.binop == 0,
        act_name(spec_unary_epilogue(op)->0.act) == Some(op.subrange(5, op.len() as int)),
{
    lemma_op_names_distinct();
    reveal_strlit("math.");
    reveal_strlit("tanh");
    reveal_strlit("exp");
    reveal_strlit("math.tanh");
    reveal_strlit("math.exp");
    if op == "math.tanh"@ {
        assert(op.subrange(0, 5) =~= "math."@);
        assert(op.subrange(5, op.len() as int) =~= "tanh"@);
    } else {
        assert(op.subrange(0, 5) =~= "math."@);
        assert(op.subrange(5, op.len() as int) =~= "exp"@);
    }
}

} // verus!
