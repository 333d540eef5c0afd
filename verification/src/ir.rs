//! KTIR intermediate representation: runtime values, attributes, operations
//! (with nested regions), functions and modules.
//!
//! Floating-point payloads are carried as IEEE-754 bit patterns (`u32` for an
//! `f32` scalar or tile element) or, for attribute literals, as the literal's
//! source text; no arithmetic on them happens in this crate.

use vstd::prelude::*;
use crate::dtypes::{DType, spec_bytes_per_elem};
use crate::env::FloatArith;

verus! {

/// A scalar runtime value.
#[derive(Clone, Copy, Debug, PartialEq, Eq, Structural)]
pub enum Scalar {
    /// An `f32`, as its IEEE-754 bit pattern.
    F32(u32),
    I32(i32),
    I64(i64),
    Bool(bool),
}

/// The integer value of an integer scalar.
pub open spec fn spec_scalar_i64(s: Scalar) -> Option<i64> {
    match s {
        Scalar::I32(i) => Some(i as i64),
        Scalar::I64(i) => Some(i),
        _ => None,
    }
}

impl Scalar {
    /// The integer value of an integer scalar (`None` for floats and bools).
    pub fn as_i64(&self) -> (r: Option<i64>)
        ensures
            r == spec_scalar_i64(*self),
    {
        match self {
            Scalar::I32(i) => Some(*i as i64),
            Scalar::I64(i) => Some(*i),
            _ => None,
        }
    }
}

/// A tensor of element data. Elements are stored as `f32` bit patterns
/// whatever the tile's dtype (integer tiles hold integer-valued floats).
#[derive(Debug, PartialEq)]
pub struct Tile {
    pub data: Vec<u32>,
    pub dtype: DType,
    pub shape: Vec<usize>,
    /// Distinct HBM sticks touched by the load that produced this tile.
    pub unique_sticks: Option<usize>,
    /// Distinct sticks touched by index-tensor reads of an indirect access.
    pub index_unique_sticks: Option<usize>,
}

/// Bytes a tile occupies in LX.
pub open spec fn spec_tile_bytes(t: Tile) -> int {
    (t.data@.len() * spec_bytes_per_elem(t.dtype)) as int
}

impl Tile {
    /// Bytes the tile occupies: element count times element width.
    pub fn size_bytes(&self) -> (n: usize)
        requires
            spec_tile_bytes(*self) <= usize::MAX,
        ensures
            n == spec_tile_bytes(*self),
    {
        self.data.len() * self.dtype.bytes_per_elem()
    }

    /// Bytes the tile occupies, if that fits in an `i64`.
    pub fn checked_size_bytes(&self) -> (n: Option<i64>)
        ensures
            n matches Some(b) ==> b == spec_tile_bytes(*self),
            n is None <==> spec_tile_bytes(*self) > i64::MAX,
    {
        let bpe = self.dtype.bytes_per_elem() as u64;
        let len = self.data.len() as u64;
        match len.checked_mul(bpe) {
            Some(b) => {
                if b <= 0x7fff_ffff_ffff_ffffu64 {
                    Some(b as i64)
                } else {
                    None
                }
            },
            None => None,
        }
    }

    /// A compute-produced tile: `data` rounded element by element to what
    /// `dtype` can hold (by the host; `f32` data is kept as it is), with no
    /// stick bookkeeping.
    pub fn compute<F: FloatArith>(data: Vec<u32>, dtype: DType, shape: Vec<usize>, floats: &F) -> (t: Tile)
        ensures
            t.data@.len() == data@.len(),
            t.dtype == dtype,
            t.shape@ == shape@,
            t.unique_sticks is None,
            t.index_unique_sticks is None,
            dtype == DType::F32 ==> t.data@ == data@,
            forall|i: int| 0 <= i < data@.len() ==> crate::env::rounded_to(floats, data@[i], dtype, #[trigger] t.data@[i]),
    {
        if dtype == DType::F32 {
            return Tile { data, dtype, shape, unique_sticks: None, index_unique_sticks: None };
        }
        let mut out: Vec<u32> = Vec::new();
        let mut i: usize = 0;
        while i < data.len()
            invariant
                0 <= i <= data@.len(),
                out@.len() == i,
                dtype != DType::F32,
                forall|j: int| 0 <= j < i ==> crate::env::round_gives(floats, data@[j], dtype, #[trigger] out@[j]),
            decreases data@.len() - i,
        {
            out.push(floats.round_to_dtype(data[i], dtype));
            i = i + 1;
        }
        Tile { data: out, dtype, shape, unique_sticks: None, index_unique_sticks: None }
    }
}

/// Abstract contents of a [`Tile`].
pub struct TileView {
    pub data: Seq<u32>,
    pub dtype: DType,
    pub shape: Seq<usize>,
    pub unique_sticks: Option<usize>,
    pub index_unique_sticks: Option<usize>,
}

impl View for Tile {
    type V = TileView;

    open spec fn view(&self) -> TileView {
        TileView {
            data: self.data@,
            dtype: self.dtype,
            shape: self.shape@,
            unique_sticks: self.unique_sticks,
            index_unique_sticks: self.index_unique_sticks,
        }
    }
}

impl Clone for Tile {
    fn clone(&self) -> (r: Self)
        ensures
            r@ == self@,
    {
        Tile {
            data: self.data.clone(),
            dtype: self.dtype,
            shape: self.shape.clone(),
            unique_sticks: self.unique_sticks,
            index_unique_sticks: self.index_unique_sticks,
        }
    }
}

/// A runtime value bound to an SSA name.
#[derive(Debug, PartialEq)]
pub enum Value {
    Scalar(Scalar),
    Index(i64),
    Tile(Tile),
    Tuple(Vec<Value>),
}

/// Abstract contents of a [`Value`].
pub enum ValueView {
    Scalar(Scalar),
    Index(i64),
    Tile(TileView),
    Tuple(Seq<ValueView>),
}

/// The abstract contents of a value, element-wise for tuples.
pub open spec fn value_view(v: Value) -> ValueView
    decreases v,
{
    match v {
        Value::Scalar(s) => ValueView::Scalar(s),
        Value::Index(i) => ValueView::Index(i),
        Value::Tile(t) => ValueView::Tile(t@),
        Value::Tuple(items) => ValueView::Tuple(
            Seq::new(
                items@.len(),
                |i: int|
                    if 0 <= i < items@.len() {
                        value_view(items@[i])
                    } else {
                        ValueView::Index(0)
                    },
            ),
        ),
    }
}

impl View for Value {
    type V = ValueView;

    open spec fn view(&self) -> ValueView {
        value_view(*self)
    }
}

impl Clone for Value {
    fn clone(&self) -> (r: Self)
        ensures
            r@ == self@,
        decreases *self,
    {
        match self {
            Value::Scalar(s) => Value::Scalar(*s),
            Value::Index(i) => Value::Index(*i),
            Value::Tile(t) => Value::Tile(t.clone()),
            Value::Tuple(items) => {
                let mut out: Vec<Value> = Vec::new();
                let mut i: usize = 0;
                while i < items.len()
                    invariant
                        *self == Value::Tuple(*items),
                        0 <= i <= items@.len(),
                        out@.len() == i,
                        forall|j: int| 0 <= j < i ==> out@[j]@ == items@[j]@,
                    decreases items@.len() - i,
                {
                    proof {
                        vstd::std_specs::vec::axiom_vec_decreases_to_view(*items);
                        assert(decreases_to!(*self => (*self)->Tuple_0));
                        assert((*self)->Tuple_0 == *items);
                        assert(decreases_to!(*items => items@));
                        assert(decreases_to!(items@ => items@[i as int]));
                    }
                    out.push(items[i].clone());
                    i = i + 1;
                }
                let r = Value::Tuple(out);
                assert(value_view(r) == value_view(*self)) by {
                    if let ValueView::Tuple(a) = value_view(r) {
                        if let ValueView::Tuple(b) = value_view(*self) {
                            assert(a =~= b);
                        }
                    }
                }
                r
            },
        }
    }
}

/// An op attribute.
#[derive(Debug, PartialEq)]
pub enum Attr {
    Int(i64),
    IntList(Vec<i64>),
    /// A floating-point literal, as written.
    Float(String),
    Str(String),
    StrList(Vec<String>),
    Bool(bool),
    Dtype(DType),
    /// A dense list of floating-point literals, as written.
    FloatList(Vec<String>),
}

/// Abstract contents of an [`Attr`].
pub enum AttrView {
    Int(i64),
    IntList(Seq<i64>),
    Float(Seq<char>),
    Str(Seq<char>),
    StrList(Seq<Seq<char>>),
    Bool(bool),
    Dtype(DType),
    FloatList(Seq<Seq<char>>),
}

impl View for Attr {
    type V = AttrView;

    open spec fn view(&self) -> AttrView {
        match self {
            Attr::Int(i) => AttrView::Int(*i),
            Attr::IntList(v) => AttrView::IntList(v@),
            Attr::Float(s) => AttrView::Float(s@),
            Attr::Str(s) => AttrView::Str(s@),
            Attr::StrList(v) => AttrView::StrList(v@.map_values(|x: String| x@)),
            Attr::Bool(b) => AttrView::Bool(*b),
            Attr::Dtype(d) => AttrView::Dtype(*d),
            Attr::FloatList(v) => AttrView::FloatList(v@.map_values(|x: String| x@)),
        }
    }
}

impl Clone for Attr {
    fn clone(&self) -> (r: Self)
        ensures
            r@ == self@,
    {
        match self {
            Attr::Int(i) => Attr::Int(*i),
            Attr::IntList(v) => Attr::IntList(v.clone()),
            Attr::Float(s) => Attr::Float(s.clone()),
            Attr::Str(s) => Attr::Str(s.clone()),
            Attr::StrList(v) => {
                let mut out: Vec<String> = Vec::new();
                let mut i: usize = 0;
                while i < v.len()
                    invariant
                        0 <= i <= v@.len(),
                        out@.len() == i,
                        forall|j: int| 0 <= j < i ==> out@[j]@ == v@[j]@,
                    decreases v@.len() - i,
                {
                    out.push(v[i].clone());
                    i = i + 1;
                }
                assert(out@.map_values(|x: String| x@) =~= v@.map_values(|x: String| x@));
                Attr::StrList(out)
            },
            Attr::Bool(b) => Attr::Bool(*b),
            Attr::Dtype(d) => Attr::Dtype(*d),
            Attr::FloatList(v) => {
                let mut out: Vec<String> = Vec::new();
                let mut i: usize = 0;
                while i < v.len()
                    invariant
                        0 <= i <= v@.len(),
                        out@.len() == i,
                        forall|j: int| 0 <= j < i ==> out@[j]@ == v@[j]@,
                    decreases v@.len() - i,
                {
                    out.push(v[i].clone());
                    i = i + 1;
                }
                assert(out@.map_values(|x: String| x@) =~= v@.map_values(|x: String| x@));
                Attr::FloatList(out)
            },
        }
    }
}


/// Value of the first attribute named `key`.
pub open spec fn attr_lookup(attrs: Seq<(String, Attr)>, key: Seq<char>) -> Option<Attr>
    decreases attrs.len(),
{
    if attrs.len() == 0 {
        None
    } else if attrs[0].0@ == key {
        Some(attrs[0].1)
    } else {
        attr_lookup(attrs.drop_first(), key)
    }
}

proof fn lemma_attr_lookup_index(attrs: Seq<(String, Attr)>, key: Seq<char>, j: int)
    requires
        0 <= j < attrs.len(),
        attrs[j].0@ == key,
        forall|i: int| 0 <= i < j ==> attrs[i].0@ != key,
    ensures
        attr_lookup(attrs, key) == Some(attrs[j].1),
    decreases j,
{
    if j > 0 {
        lemma_attr_lookup_index(attrs.drop_first(), key, j - 1);
    }
}

proof fn lemma_attr_lookup_absent(attrs: Seq<(String, Attr)>, key: Seq<char>)
    requires
        forall|i: int| 0 <= i < attrs.len() ==> attrs[i].0@ != key,
    ensures
        attr_lookup(attrs, key) is None,
    decreases attrs.len(),
{
    if attrs.len() > 0 {
        lemma_attr_lookup_absent(attrs.drop_first(), key);
    }
}

proof fn lemma_attr_lookup_update(attrs: Seq<(String, Attr)>, j: int, e: (String, Attr), key: Seq<char>)
    requires
        0 <= j < attrs.len(),
        attrs[j].0@ == e.0@,
        key != e.0@,
    ensures
        attr_lookup(attrs.update(j, e), key) == attr_lookup(attrs, key),
    decreases attrs.len(),
{
    if j > 0 {
        lemma_attr_lookup_update(attrs.drop_first(), j - 1, e, key);
        assert(attrs.update(j, e).drop_first() =~= attrs.drop_first().update(j - 1, e));
    } else {
        assert(attrs.update(j, e).drop_first() =~= attrs.drop_first());
    }
}

proof fn lemma_attr_lookup_push(attrs: Seq<(String, Attr)>, e: (String, Attr), key: Seq<char>)
    requires
        key != e.0@,
    ensures
        attr_lookup(attrs.push(e), key) == attr_lookup(attrs, key),
    decreases attrs.len(),
{
    if attrs.len() > 0 {
        lemma_attr_lookup_push(attrs.drop_first(), e, key);
        assert(attrs.push(e).drop_first() =~= attrs.drop_first().push(e));
    } else {
        assert(attrs.push(e).drop_first() =~= attrs);
    }
}

/// One operation: optional SSA result, op name, operand SSA names, attributes,
/// optional result type, and nested regions (each a list of operations).
#[derive(Debug, PartialEq)]
pub struct Operation {
    pub result: Option<String>,
    pub op_type: String,
    pub operands: Vec<String>,
    pub attributes: Vec<(String, Attr)>,
    pub result_type: Option<String>,
    pub regions: Vec<Vec<Operation>>,
}

/// The characters of each string, in order.
pub open spec fn strings_view(v: Seq<String>) -> Seq<Seq<char>> {
    v.map_values(|s: String| s@)
}

/// Abstract contents of an [`Operation`], nested regions included.
pub struct OpView {
    pub result: Option<Seq<char>>,
    pub op_type: Seq<char>,
    pub operands: Seq<Seq<char>>,
    pub attributes: Seq<(Seq<char>, AttrView)>,
    pub result_type: Option<Seq<char>>,
    pub regions: Seq<Seq<OpView>>,
}

/// The characters of an optional string.
pub open spec fn opt_str_view(s: Option<String>) -> Option<Seq<char>> {
    match s {
        Some(x) => Some(x@),
        None => None,
    }
}

/// Each attribute as (name, value) views.
pub open spec fn attrs_view(a: Seq<(String, Attr)>) -> Seq<(Seq<char>, AttrView)> {
    a.map_values(|p: (String, Attr)| (p.0@, p.1@))
}

/// The abstract contents of an operation, recursively through its regions.
pub open spec fn op_view(op: Operation) -> OpView
    decreases op,
{
    OpView {
        result: opt_str_view(op.result),
        op_type: op.op_type@,
        operands: strings_view(op.operands@),
        attributes: attrs_view(op.attributes@),
        result_type: opt_str_view(op.result_type),
        regions: Seq::new(
            op.regions@.len(),
            |r: int|
                if 0 <= r < op.regions@.len() {
                    Seq::new(
                        op.regions@[r]@.len(),
                        |j: int|
                            if 0 <= j < op.regions@[r]@.len() {
                                op_view(op.regions@[r]@[j])
                            } else {
                                OpView {
                                    result: None,
                                    op_type: Seq::empty(),
                                    operands: Seq::empty(),
                                    attributes: Seq::empty(),
                                    result_type: None,
                                    regions: Seq::empty(),
                                }
                            },
                    )
                } else {
                    Seq::empty()
                },
        ),
    }
}

impl View for Operation {
    type V = OpView;

    open spec fn view(&self) -> OpView {
        op_view(*self)
    }
}

impl Operation {
    /// An operation with no attributes, result type or regions.
    pub fn new(result: Option<&str>, op_type: &str, operands: &[&str]) -> (op: Operation)
        ensures
            op.result matches Some(r) ==> result matches Some(q) && r@ == q@,
            op.result is None <==> result is None,
            op.op_type@ == op_type@,
            op.operands@.len() == operands@.len(),
            forall|i: int| 0 <= i < operands@.len() ==> #[trigger] op.operands@[i]@ == operands@[i]@,
            op.attributes@.len() == 0,
            op.result_type is None,
            op.regions@.len() == 0,
    {
        let r = match result {
            Some(q) => Some(String::from_str(q)),
            None => None,
        };
        let mut ops: Vec<String> = Vec::new();
        let mut i: usize = 0;
        while i < operands.len()
            invariant
                0 <= i <= operands@.len(),
                ops@.len() == i,
                forall|j: int| 0 <= j < i ==> #[trigger] ops@[j]@ == operands@[j]@,
            decreases operands@.len() - i,
        {
            ops.push(String::from_str(operands[i]));
            i = i + 1;
        }
        Operation {
            result: r,
            op_type: String::from_str(op_type),
            operands: ops,
            attributes: Vec::new(),
            result_type: None,
            regions: Vec::new(),
        }
    }

    /// This operation with attribute `key` set to `value` (replacing an
    /// earlier value of that attribute).
    pub fn with_attr(self, key: &str, value: Attr) -> (op: Operation)
        ensures
            attr_lookup(op.attributes@, key@) == Some(value),
            forall|k: Seq<char>| k != key@ ==> attr_lookup(op.attributes@, k) == attr_lookup(self.attributes@, k),
            op.result == self.result,
            op.op_type == self.op_type,
            op.operands == self.operands,
            op.result_type == self.result_type,
            op.regions == self.regions,
    {
        let mut op = self;
        let ghost old_attrs = op.attributes@;
        let mut i: usize = 0;
        while i < op.attributes.len()
            invariant
                0 <= i <= op.attributes@.len(),
                op.attributes@ == old_attrs,
                old_attrs == self.attributes@,
                op.result == self.result,
                op.op_type == self.op_type,
                op.operands == self.operands,
                op.result_type == self.result_type,
                op.regions == self.regions,
                forall|j: int| 0 <= j < i ==> op.attributes@[j].0@ != key@,
            decreases op.attributes@.len() - i,
        {
            if crate::text::str_eq(op.attributes[i].0.as_str(), key) {
                let e = (String::from_str(key), value);
                proof {
                    assert forall|k: Seq<char>| k != key@ implies attr_lookup(old_attrs.update(i as int, e), k)
                        == attr_lookup(old_attrs, k) by {
                        lemma_attr_lookup_update(old_attrs, i as int, e, k);
                    }
                    let u = old_attrs.update(i as int, e);
                    assert forall|j: int| 0 <= j < i implies u[j].0@ != key@ by {
                        assert(u[j] == old_attrs[j]);
                    }
                    lemma_attr_lookup_index(u, key@, i as int);
                }
                op.attributes.set(i, e);
                return op;
            }
            i = i + 1;
        }
        let e = (String::from_str(key), value);
        proof {
            assert forall|k: Seq<char>| k != key@ implies attr_lookup(old_attrs.push(e), k) == attr_lookup(
                old_attrs,
                k,
            ) by {
                lemma_attr_lookup_push(old_attrs, e, k);
            }
            let u = old_attrs.push(e);
            assert forall|j: int| 0 <= j < old_attrs.len() implies u[j].0@ != key@ by {
                assert(u[j] == old_attrs[j]);
            }
            lemma_attr_lookup_index(u, key@, old_attrs.len() as int);
        }
        op.attributes.push(e);
        op
    }

    /// The attribute named `key`, if any.
    pub fn get_attr(&self, key: &str) -> (a: Option<&Attr>)
        ensures
            a matches Some(x) ==> attr_lookup(self.attributes@, key@) == Some(*x),
            a is None <==> attr_lookup(self.attributes@, key@) is None,
    {
        let mut i: usize = 0;
        while i < self.attributes.len()
            invariant
                0 <= i <= self.attributes@.len(),
                forall|j: int| 0 <= j < i ==> self.attributes@[j].0@ != key@,
            decreases self.attributes@.len() - i,
        {
            if crate::text::str_eq(self.attributes[i].0.as_str(), key) {
                proof {
                    lemma_attr_lookup_index(self.attributes@, key@, i as int);
                }
                return Some(&self.attributes[i].1);
            }
            i = i + 1;
        }
        proof {
            lemma_attr_lookup_absent(self.attributes@, key@);
        }
        None
    }
}

/// A parsed function: name, `(name, type)` arguments, body, launch grid and
/// optional return type.
#[derive(Debug, PartialEq)]
pub struct IRFunction {
    pub name: String,
    pub arguments: Vec<(String, String)>,
    pub operations: Vec<Operation>,
    pub grid: (usize, usize, usize),
    pub return_type: Option<String>,
}

impl IRFunction {
    /// Argument names without their leading `%` sigils.
    pub fn arg_names(&self) -> (names: Vec<String>)
        ensures
            names@.len() == self.arguments@.len(),
            forall|i: int|
                0 <= i < names@.len() ==> #[trigger] names@[i]@ == crate::context::normalize(
                    self.arguments@[i].0@,
                ),
    {
        let mut names: Vec<String> = Vec::new();
        let mut i: usize = 0;
        while i < self.arguments.len()
            invariant
                0 <= i <= self.arguments@.len(),
                names@.len() == i,
                forall|j: int|
                    0 <= j < i ==> #[trigger] names@[j]@ == crate::context::normalize(
                        self.arguments@[j].0@,
                    ),
            decreases self.arguments@.len() - i,
        {
            let k = crate::context::normalize_name(self.arguments[i].0.as_str());
            names.push(crate::text::chars_to_string(&k));
            i = i + 1;
        }
        names
    }
}

/// A parsed module: its functions in source order.
#[derive(Debug, PartialEq)]
pub struct IRModule {
    pub functions: Vec<IRFunction>,
}

impl IRModule {
    /// A module with no functions.
    pub fn new() -> (m: IRModule)
        ensures
            m.functions@.len() == 0,
    {
        IRModule { functions: Vec::new() }
    }

    /// Append a function.
    pub fn add_function(&mut self, f: IRFunction)
        ensures
            final(self).functions@ == old(self).functions@.push(f),
    {
        self.functions.push(f);
    }

    /// The first function named `name`.
    pub fn get_function(&self, name: &str) -> (f: Option<&IRFunction>)
        ensures
            f matches Some(g) ==> exists|i: int|
                0 <= i < self.functions@.len() && self.functions@[i] == *g && g.name@ == name@
                    && forall|j: int| 0 <= j < i ==> (#[trigger] self.functions@[j]).name@ != name@,
            f is None <==> forall|i: int|
                0 <= i < self.functions@.len() ==> (#[trigger] self.functions@[i]).name@ != name@,
    {
        let mut i: usize = 0;
        while i < self.functions.len()
            invariant
                0 <= i <= self.functions@.len(),
                forall|j: int| 0 <= j < i ==> (#[trigger] self.functions@[j]).name@ != name@,
            decreases self.functions@.len() - i,
        {
            if crate::text::str_eq(self.functions[i].name.as_str(), name) {
                return Some(&self.functions[i]);
            }
            i = i + 1;
        }
        None
    }
}

impl Default for IRModule {
    fn default() -> (m: IRModule)
        ensures
            m.functions@.len() == 0,
    {
        IRModule::new()
    }
}


/// Setting an attribute and reading it back gives the value set; every other
/// attribute reads as before.
pub proof fn lemma_attr_set_then_get(before: Seq<(String, Attr)>, after: Seq<(String, Attr)>, key: Seq<char>, v: Attr, other: Seq<char>)
    requires
        attr_lookup(after, key) == Some(v),
        forall|k: Seq<char>| k != key ==> attr_lookup(after, k) == attr_lookup(before, k),
        other != key,
    ensures
        attr_lookup(after, key) == Some(v),
        attr_lookup(after, other) == attr_lookup(before, other),
{
}

} // verus!
