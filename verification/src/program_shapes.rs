//! Whole-program bookkeeping shared by the segmented and resident
//! executors: recovering logical tensor ids from pointer-argument names and
//! caller keys, and sizing every logical tensor from the memory views the
//! program's functions construct.

use vstd::prelude::*;
use std::collections::HashMap;
use crate::fusion::{Binding, ProgramSpec, fn_index};
use crate::ir::{Attr, AttrView, IRFunction, IRModule, Operation, OpView, attr_lookup, attrs_view};
use crate::metal_backend::first_fn;
use crate::parser::{debug_quoted, quoted};
use crate::scan::{all_digits, digits_value, parse_u64, slice_chars};
use crate::text::str_to_chars;

verus! {

/// `s` without its leading run of `c`.
pub open spec fn trim_start_char(s: Seq<char>, c: char) -> Seq<char>
    decreases s.len(),
{
    if s.len() > 0 && s[0] == c {
        trim_start_char(s.drop_first(), c)
    } else {
        s
    }
}

/// `s` ends with `_ptr`.
pub open spec fn ends_ptr(s: Seq<char>) -> bool {
    s.len() >= 4 && s.subrange(s.len() - 4, s.len() as int) == "_ptr"@
}

/// `s` without its trailing run of `_ptr` suffixes.
pub open spec fn trim_end_ptr(s: Seq<char>) -> Seq<char>
    decreases s.len(),
{
    if ends_ptr(s) {
        trim_end_ptr(s.subrange(0, s.len() - 4))
    } else {
        s
    }
}

/// `s` without one leading `c`, if it has one.
pub open spec fn strip_prefix_char(s: Seq<char>, c: char) -> Seq<char> {
    if s.len() > 0 && s[0] == c {
        s.drop_first()
    } else {
        s
    }
}

/// `s` without one trailing `_ptr`, if it has one.
pub open spec fn strip_suffix_ptr(s: Seq<char>) -> Seq<char> {
    if ends_ptr(s) {
        s.subrange(0, s.len() - 4)
    } else {
        s
    }
}

/// The value of an unsigned decimal literal as `u64` parsing reads it: an
/// optional `+`, then one or more digits, of value at most `u64::MAX`.
pub open spec fn u64_literal(s: Seq<char>) -> Option<u64> {
    let d = if s.len() > 0 && s[0] == '+' {
        s.drop_first()
    } else {
        s
    };
    if d.len() > 0 && all_digits(d) && digits_value(d) <= u64::MAX {
        Some(digits_value(d) as u64)
    } else {
        None
    }
}

/// The id text of a fused pointer-argument name: every leading `%`, then
/// every leading `t`, and every trailing `_ptr` removed.
pub open spec fn arg_id_text(a: Seq<char>) -> Seq<char> {
    trim_end_ptr(trim_start_char(trim_start_char(a, '%'), 't'))
}

/// The id text of a caller key: every leading `%`, then at most one `t`
/// and at most one trailing `_ptr` removed.
pub open spec fn key_id_text(k: Seq<char>) -> Seq<char> {
    strip_suffix_ptr(strip_prefix_char(trim_start_char(k, '%'), 't'))
}

fn trim_start_exec(s: &Vec<char>, c: char) -> (r: Vec<char>)
    ensures
        r@ == trim_start_char(s@, c),
{
    let mut i: usize = 0;
    assert(s@.subrange(0, s@.len() as int) =~= s@);
    while i < s.len() && s[i] == c
        invariant
            0 <= i <= s@.len(),
            trim_start_char(s@, c) == trim_start_char(s@.subrange(i as int, s@.len() as int), c),
        decreases s@.len() - i,
    {
        assert(s@.subrange(i as int, s@.len() as int).drop_first() =~= s@.subrange(i + 1, s@.len() as int));
        i = i + 1;
    }
    slice_chars(s, i, s.len())
}

fn ends_ptr_at(s: &Vec<char>, n: usize) -> (b: bool)
    requires
        n <= s@.len(),
    ensures
        b == ends_ptr(s@.subrange(0, n as int)),
{
    proof {
        reveal_strlit("_ptr");
    }
    if n < 4 {
        return false;
    }
    let b = s[n - 4] == '_' && s[n - 3] == 'p' && s[n - 2] == 't' && s[n - 1] == 'r';
    let ghost t = s@.subrange(0, n as int).subrange(n - 4, n as int);
    if b {
        assert(t =~= "_ptr"@);
    } else {
        assert(t[0] != '_' || t[1] != 'p' || t[2] != 't' || t[3] != 'r');
        assert(t != "_ptr"@);
    }
    b
}

fn trim_end_ptr_exec(s: &Vec<char>) -> (r: Vec<char>)
    ensures
        r@ == trim_end_ptr(s@),
{
    let mut n: usize = s.len();
    assert(s@.subrange(0, s@.len() as int) =~= s@);
    while ends_ptr_at(s, n)
        invariant
            0 <= n <= s@.len(),
            trim_end_ptr(s@) == trim_end_ptr(s@.subrange(0, n as int)),
        decreases n,
    {
        assert(s@.subrange(0, n as int).subrange(0, n - 4) =~= s@.subrange(0, n - 4));
        n = n - 4;
    }
    slice_chars(s, 0, n)
}

fn parse_u64_literal(s: &Vec<char>) -> (r: Option<u64>)
    ensures
        r == u64_literal(s@),
{
    if s.len() > 0 && s[0] == '+' {
        let d = slice_chars(s, 1, s.len());
        assert(d@ =~= s@.drop_first());
        parse_u64(&d)
    } else {
        parse_u64(s)
    }
}

fn message(prefix: &str, what: &str) -> (m: String)
    ensures
        m@ == prefix@ + debug_quoted(what@),
{
    let mut m = String::from_str(prefix);
    let cs = str_to_chars(what);
    m.append(quoted(&cs).as_str());
    m
}

/// The logical tensor id of a fused pointer-argument name `%t<id>_ptr`.
pub fn tensor_id_of_arg(arg: &str) -> (r: Result<u64, String>)
    ensures
        match u64_literal(arg_id_text(arg@)) {
            Some(v) => r matches Ok(x) && x == v,
            None => r matches Err(e) && e@ == "unexpected fused pointer-arg name "@ + debug_quoted(arg@),
        },
{
    let cs = str_to_chars(arg);
    let a = trim_start_exec(&cs, '%');
    let b = trim_start_exec(&a, 't');
    let c = trim_end_ptr_exec(&b);
    match parse_u64_literal(&c) {
        Some(v) => Ok(v),
        None => Err(message("unexpected fused pointer-arg name ", arg)),
    }
}

/// The numeric tensor id of a caller key: `t<id>`, `%t<id>`, `%t<id>_ptr`
/// or a bare `<id>`.
pub fn tensor_id_of_key(key: &str) -> (r: Result<u64, String>)
    ensures
        match u64_literal(key_id_text(key@)) {
            Some(v) => r matches Ok(x) && x == v,
            None => r matches Err(e) && e@ == "cannot parse tensor id from arg/output key "@ + debug_quoted(key@),
        },
{
    let cs = str_to_chars(key);
    let a = trim_start_exec(&cs, '%');
    let b = if a.len() > 0 && a[0] == 't' {
        let t = slice_chars(&a, 1, a.len());
        assert(t@ =~= a@.drop_first());
        t
    } else {
        a
    };
    let c = if ends_ptr_at(&b, b.len()) {
        assert(b@.subrange(0, b@.len() as int) =~= b@);
        slice_chars(&b, 0, b.len() - 4)
    } else {
        assert(b@.subrange(0, b@.len() as int) =~= b@);
        b
    };
    match parse_u64_literal(&c) {
        Some(v) => Ok(v),
        None => Err(message("cannot parse tensor id from arg/output key ", key)),
    }
}

/// Value of the first attribute view named `key`.
pub open spec fn view_attr(attrs: Seq<(Seq<char>, AttrView)>, key: Seq<char>) -> Option<AttrView>
    decreases attrs.len(),
{
    if attrs.len() == 0 {
        None
    } else if attrs[0].0 == key {
        Some(attrs[0].1)
    } else {
        view_attr(attrs.drop_first(), key)
    }
}

proof fn lemma_view_attr(a: Seq<(String, Attr)>, key: Seq<char>)
    ensures
        view_attr(attrs_view(a), key) == (match attr_lookup(a, key) {
            Some(x) => Some(x@),
            None => None::<AttrView>,
        }),
    decreases a.len(),
{
    if a.len() > 0 {
        assert(attrs_view(a).drop_first() =~= attrs_view(a.drop_first()));
        lemma_view_attr(a.drop_first(), key);
    }
}

/// The element shape a memory view records: its `shape` attribute, when that
/// is a nonempty integer list, each entry taken as `usize`.
pub open spec fn view_shape_spec(v: OpView) -> Option<Seq<usize>> {
    match view_attr(v.attributes, "shape"@) {
        Some(AttrView::IntList(xs)) => if xs.len() > 0 {
            Some(xs.map_values(|x: i64| x as usize))
        } else {
            None
        },
        _ => None,
    }
}

/// The tensor that the last binding of argument `a` points at.
pub open spec fn arg_tensor(bs: Seq<Binding>, a: Seq<char>) -> Option<u64>
    decreases bs.len(),
{
    if bs.len() == 0 {
        None
    } else if bs.last().arg@ == a {
        Some(bs.last().tensor)
    } else {
        arg_tensor(bs.drop_last(), a)
    }
}

/// `m` after visiting op `v` itself (not its regions): a memory view whose
/// pointer operand is a bound argument records its shape for that tensor,
/// unless the tensor already has one.
pub open spec fn note_view(v: OpView, bs: Seq<Binding>, m: Map<u64, Seq<usize>>) -> Map<u64, Seq<usize>> {
    if v.op_type == "ktdp.construct_memory_view"@ && v.operands.len() > 0 {
        match (arg_tensor(bs, v.operands[0]), view_shape_spec(v)) {
            (Some(t), Some(sh)) => if m.contains_key(t) {
                m
            } else {
                m.insert(t, sh)
            },
            _ => m,
        }
    } else {
        m
    }
}

/// `m` after visiting op `v`, then its regions in order.
pub open spec fn shapes_op(v: OpView, bs: Seq<Binding>, m: Map<u64, Seq<usize>>) -> Map<u64, Seq<usize>>
    decreases v,
{
    shapes_regions(v.regions, bs, note_view(v, bs, m))
}

/// `m` after visiting every region of `rs` in order.
pub open spec fn shapes_regions(rs: Seq<Seq<OpView>>, bs: Seq<Binding>, m: Map<u64, Seq<usize>>) -> Map<
    u64,
    Seq<usize>,
>
    decreases rs,
{
    if rs.len() == 0 {
        m
    } else {
        shapes_ops(rs.last(), bs, shapes_regions(rs.drop_last(), bs, m))
    }
}

/// `m` after visiting the ops of `ops` in order.
pub open spec fn shapes_ops(ops: Seq<OpView>, bs: Seq<Binding>, m: Map<u64, Seq<usize>>) -> Map<u64, Seq<usize>>
    decreases ops,
{
    if ops.len() == 0 {
        m
    } else {
        shapes_op(ops.last(), bs, shapes_ops(ops.drop_last(), bs, m))
    }
}

/// The views of a list of operations.
pub open spec fn ops_view(ops: Seq<Operation>) -> Seq<OpView> {
    ops.map_values(|o: Operation| o@)
}

/// A shape table as a map of sequences.
pub open spec fn shape_map_view(m: Map<u64, Vec<usize>>) -> Map<u64, Seq<usize>> {
    Map::new(|k: u64| m.contains_key(k), |k: u64| m[k]@)
}

/// The integer element-shape attribute of a `construct_memory_view` op.
pub fn view_shape_of(op: &Operation) -> (r: Option<Vec<usize>>)
    ensures
        r matches Some(v) ==> view_shape_spec(op@) == Some(v@),
        r is None <==> view_shape_spec(op@) is None,
{
    proof {
        lemma_view_attr(op.attributes@, "shape"@);
    }
    match op.get_attr("shape") {
        Some(Attr::IntList(v)) => {
            if v.len() == 0 {
                return None;
            }
            let mut out: Vec<usize> = Vec::new();
            let mut i: usize = 0;
            while i < v.len()
                invariant
                    0 <= i <= v@.len(),
                    out@.len() == i,
                    forall|j: int| 0 <= j < i ==> out@[j] == v@[j] as usize,
                decreases v@.len() - i,
            {
                out.push(v[i] as usize);
                i = i + 1;
            }
            assert(out@ =~= v@.map_values(|x: i64| x as usize));
            Some(out)
        },
        _ => None,
    }
}

fn arg_tensor_exec(bs: &Vec<Binding>, a: &String) -> (r: Option<u64>)
    ensures
        r == arg_tensor(bs@, a@),
{
    let mut i: usize = bs.len();
    assert(bs@.subrange(0, bs@.len() as int) =~= bs@);
    while i > 0
        invariant
            0 <= i <= bs@.len(),
            arg_tensor(bs@, a@) == arg_tensor(bs@.subrange(0, i as int), a@),
        decreases i,
    {
        assert(bs@.subrange(0, i as int).drop_last() =~= bs@.subrange(0, i - 1));
        if crate::text::str_eq(bs[i - 1].arg.as_str(), a.as_str()) {
            return Some(bs[i - 1].tensor);
        }
        i = i - 1;
    }
    None
}

fn note_view_exec(op: &Operation, bs: &Vec<Binding>, shapes: &mut HashMap<u64, Vec<usize>>)
    ensures
        shape_map_view(final(shapes)@) == note_view(op@, bs@, shape_map_view(old(shapes)@)),
{
    let ghost m = shape_map_view(shapes@);
    if crate::text::str_eq(op.op_type.as_str(), "ktdp.construct_memory_view") && op.operands.len() > 0 {
        assert(op@.operands[0] == op.operands@[0]@);
        match arg_tensor_exec(bs, &op.operands[0]) {
            Some(t) => match view_shape_of(op) {
                Some(sh) => {
                    if !shapes.contains_key(&t) {
                        shapes.insert(t, sh);
                        assert(shape_map_view(shapes@) =~= m.insert(t, sh@));
                    }
                },
                None => {},
            },
            None => {},
        }
    }
}

/// Walk `ops` (recursing into regions), recording for every memory view
/// whose pointer operand is a bound argument the view's shape under that
/// argument's tensor id; a tensor keeps the first shape recorded for it.
pub fn collect_view_shapes(ops: &Vec<Operation>, bs: &Vec<Binding>, shapes: &mut HashMap<u64, Vec<usize>>)
    ensures
        shape_map_view(final(shapes)@) == shapes_ops(ops_view(ops@), bs@, shape_map_view(old(shapes)@)),
    decreases ops@,
{
    let ghost vs = ops_view(ops@);
    let ghost m0 = shape_map_view(shapes@);
    let mut i: usize = 0;
    while i < ops.len()
        invariant
            0 <= i <= ops@.len(),
            vs == ops_view(ops@),
            shape_map_view(shapes@) == shapes_ops(vs.subrange(0, i as int), bs@, m0),
        decreases ops@.len() - i,
    {
        let op = &ops[i];
        let ghost v = op@;
        assert(vs[i as int] == v);
        let ghost before = shape_map_view(shapes@);
        note_view_exec(op, bs, shapes);
        let ghost noted = shape_map_view(shapes@);
        let mut r: usize = 0;
        assert(v.regions.subrange(0, 0) =~= Seq::<Seq<OpView>>::empty());
        while r < op.regions.len()
            invariant
                0 <= r <= op.regions@.len(),
                i < ops@.len(),
                op == &ops@[i as int],
                v == op@,
                v.regions.len() == op.regions@.len(),
                shape_map_view(shapes@) == shapes_regions(v.regions.subrange(0, r as int), bs@, noted),
            decreases op.regions@.len() - r,
        {
            proof {
                vstd::std_specs::vec::axiom_vec_decreases_to_view(op.regions);
                vstd::std_specs::vec::axiom_vec_decreases_to_view(op.regions@[r as int]);
                assert(decreases_to!(ops@ => ops@[i as int]));
                assert(decreases_to!(ops@[i as int] => ops@[i as int].regions));
                assert(decreases_to!(op.regions => op.regions@));
                assert(decreases_to!(op.regions@ => op.regions@[r as int]));
                assert(decreases_to!(op.regions@[r as int] => op.regions@[r as int]@));
            }
            let ghost prev = shape_map_view(shapes@);
            collect_view_shapes(&op.regions[r], bs, shapes);
            proof {
                assert(ops_view(op.regions@[r as int]@) =~= v.regions[r as int]);
                assert(v.regions.subrange(0, r + 1).drop_last() =~= v.regions.subrange(0, r as int));
            }
            r = r + 1;
        }
        proof {
            assert(v.regions.subrange(0, v.regions.len() as int) =~= v.regions);
            let sub = vs.subrange(0, i + 1);
            assert(sub.drop_last() =~= vs.subrange(0, i as int));
            assert(sub.last() == v);
            assert(noted == note_view(v, bs@, before));
            assert(shape_map_view(shapes@) == shapes_regions(v.regions, bs@, noted));
            assert(shapes_op(v, bs@, before) == shapes_regions(v.regions, bs@, note_view(v, bs@, before)));
            assert(shapes_ops(sub, bs@, m0) == shapes_op(v, bs@, shapes_ops(vs.subrange(0, i as int), bs@, m0)));
        }
        i = i + 1;
    }
    assert(vs.subrange(0, ops@.len() as int) =~= vs);
}

/// Shapes recorded over the functions of the first `n` nodes, in order; an
/// error names the first node whose function is missing.
pub open spec fn derive_spec(fs: Seq<IRFunction>, nodes: Seq<crate::fusion::NodeSpec>, n: int) -> Result<
    Map<u64, Seq<usize>>,
    Seq<char>,
>
    decreases n,
{
    if n <= 0 {
        Ok(Map::empty())
    } else {
        match derive_spec(fs, nodes, n - 1) {
            Err(e) => Err(e),
            Ok(m) => match first_fn(fs, nodes[n - 1].func@, 0) {
                None => Err("no function named "@ + nodes[n - 1].func@),
                Some(k) => Ok(shapes_ops(ops_view(fs[k].operations@), nodes[n - 1].bindings@, m)),
            },
        }
    }
}

/// The element shape of every logical tensor the program touches, read
/// from the memory views of each node's function under that node's
/// argument bindings.
pub fn derive_shapes(module: &IRModule, spec: &ProgramSpec) -> (r: Result<HashMap<u64, Vec<usize>>, String>)
    ensures
        match derive_spec(module.functions@, spec.nodes@, spec.nodes@.len() as int) {
            Ok(m) => r matches Ok(h) && shape_map_view(h@) == m,
            Err(e) => r matches Err(x) && x@ == e,
        },
{
    let mut shapes: HashMap<u64, Vec<usize>> = HashMap::new();
    assert(shape_map_view(shapes@) =~= Map::empty());
    let mut i: usize = 0;
    while i < spec.nodes.len()
        invariant
            0 <= i <= spec.nodes@.len(),
            derive_spec(module.functions@, spec.nodes@, i as int) == Ok::<Map<u64, Seq<usize>>, Seq<char>>(
                shape_map_view(shapes@),
            ),
        decreases spec.nodes@.len() - i,
    {
        let node = &spec.nodes[i];
        let fi = match fn_index(&module.functions, &node.func) {
            Some(fi) => fi,
            None => {
                let mut m = String::from_str("no function named ");
                m.append(node.func.as_str());
                proof {
                    lemma_derive_err_sticks(module.functions@, spec.nodes@, i + 1, spec.nodes@.len() as int);
                }
                return Err(m);
            },
        };
        collect_view_shapes(&module.functions[fi].operations, &node.bindings, &mut shapes);
        i = i + 1;
    }
    Ok(shapes)
}

proof fn lemma_derive_err_sticks(fs: Seq<IRFunction>, nodes: Seq<crate::fusion::NodeSpec>, a: int, b: int)
    requires
        a <= b,
        derive_spec(fs, nodes, a) is Err,
    ensures
        derive_spec(fs, nodes, b) == derive_spec(fs, nodes, a),
    decreases b - a,
{
    if a < b {
        lemma_derive_err_sticks(fs, nodes, a, b - 1);
    }
}

} // verus!
