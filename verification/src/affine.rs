//! Affine expressions, maps and sets over integer index spaces.
//!
//! `AffineMap` is a pure multi-result function of dimension and symbol values;
//! `BoxSet` is an axis-aligned integer box with per-axis containment and
//! intersection; `AffineSet` is a conjunction of `expr >= 0` / `expr == 0`
//! constraints.

use vstd::prelude::*;

verus! {

/// Recursive affine-expression tree.
#[derive(Debug, PartialEq, Eq)]
pub enum AffineExpr {
    Dim(usize),
    Sym(usize),
    Const(i64),
    Add(Box<AffineExpr>, Box<AffineExpr>),
    Mul(Box<AffineExpr>, Box<AffineExpr>),
    FloorDiv(Box<AffineExpr>, Box<AffineExpr>),
    Mod(Box<AffineExpr>, Box<AffineExpr>),
}

/// Mathematical value of `e` at the given dimension and symbol values.
/// `FloorDiv` and `Mod` are Euclidean (remainder never negative), which is
/// floor division for a positive divisor.
pub open spec fn spec_eval(e: AffineExpr, dims: Seq<i64>, syms: Seq<i64>) -> int
    decreases e,
{
    match e {
        AffineExpr::Dim(i) => dims[i as int] as int,
        AffineExpr::Sym(i) => syms[i as int] as int,
        AffineExpr::Const(c) => c as int,
        AffineExpr::Add(a, b) => spec_eval(*a, dims, syms) + spec_eval(*b, dims, syms),
        AffineExpr::Mul(a, b) => spec_eval(*a, dims, syms) * spec_eval(*b, dims, syms),
        AffineExpr::FloorDiv(a, b) => spec_eval(*a, dims, syms) / spec_eval(*b, dims, syms),
        AffineExpr::Mod(a, b) => spec_eval(*a, dims, syms) % spec_eval(*b, dims, syms),
    }
}

pub open spec fn fits_i64(v: int) -> bool {
    i64::MIN <= v <= i64::MAX
}

/// `e` can be evaluated with 64-bit arithmetic: every index is in range, every
/// intermediate value fits in `i64`, and no division or remainder is by zero
/// (nor the one overflowing remainder `i64::MIN % -1`).
pub open spec fn evaluable(e: AffineExpr, dims: Seq<i64>, syms: Seq<i64>) -> bool
    decreases e,
{
    match e {
        AffineExpr::Dim(i) => i < dims.len(),
        AffineExpr::Sym(i) => i < syms.len(),
        AffineExpr::Const(_) => true,
        AffineExpr::Add(a, b) => evaluable(*a, dims, syms) && evaluable(*b, dims, syms)
            && fits_i64(spec_eval(*a, dims, syms) + spec_eval(*b, dims, syms)),
        AffineExpr::Mul(a, b) => evaluable(*a, dims, syms) && evaluable(*b, dims, syms)
            && fits_i64(spec_eval(*a, dims, syms) * spec_eval(*b, dims, syms)),
        AffineExpr::FloorDiv(a, b) => evaluable(*a, dims, syms) && evaluable(*b, dims, syms)
            && spec_eval(*b, dims, syms) != 0
            && fits_i64(spec_eval(*a, dims, syms) / spec_eval(*b, dims, syms)),
        AffineExpr::Mod(a, b) => evaluable(*a, dims, syms) && evaluable(*b, dims, syms)
            && spec_eval(*b, dims, syms) != 0
            && !(spec_eval(*a, dims, syms) == i64::MIN && spec_eval(*b, dims, syms) == -1),
    }
}

proof fn lemma_eval_fits(e: AffineExpr, dims: Seq<i64>, syms: Seq<i64>)
    requires
        evaluable(e, dims, syms),
    ensures
        fits_i64(spec_eval(e, dims, syms)),
    decreases e,
{
    match e {
        AffineExpr::Mod(a, b) => {
            lemma_eval_fits(*a, dims, syms);
            lemma_eval_fits(*b, dims, syms);
        },
        _ => {},
    }
}

impl Clone for AffineExpr {
    fn clone(&self) -> (r: Self)
        ensures
            r == *self,
        decreases *self,
    {
        match self {
            AffineExpr::Dim(i) => AffineExpr::Dim(*i),
            AffineExpr::Sym(i) => AffineExpr::Sym(*i),
            AffineExpr::Const(c) => AffineExpr::Const(*c),
            AffineExpr::Add(a, b) => AffineExpr::Add(Box::new((**a).clone()), Box::new((**b).clone())),
            AffineExpr::Mul(a, b) => AffineExpr::Mul(Box::new((**a).clone()), Box::new((**b).clone())),
            AffineExpr::FloorDiv(a, b) => AffineExpr::FloorDiv(
                Box::new((**a).clone()),
                Box::new((**b).clone()),
            ),
            AffineExpr::Mod(a, b) => AffineExpr::Mod(Box::new((**a).clone()), Box::new((**b).clone())),
        }
    }
}

impl AffineExpr {
    /// Evaluate against concrete dimension and symbol values.
    pub fn eval(&self, dims: &[i64], syms: &[i64]) -> (r: i64)
        requires
            evaluable(*self, dims@, syms@),
        ensures
            r == spec_eval(*self, dims@, syms@),
        decreases *self,
    {
        match self {
            AffineExpr::Dim(i) => dims[*i],
            AffineExpr::Sym(i) => syms[*i],
            AffineExpr::Const(c) => *c,
            AffineExpr::Add(a, b) => a.eval(dims, syms) + b.eval(dims, syms),
            AffineExpr::Mul(a, b) => a.eval(dims, syms) * b.eval(dims, syms),
            AffineExpr::FloorDiv(a, b) => {
                let x = a.eval(dims, syms);
                let y = b.eval(dims, syms);
                x.checked_div_euclid(y).unwrap()
            },
            AffineExpr::Mod(a, b) => {
                let x = a.eval(dims, syms);
                let y = b.eval(dims, syms);
                proof {
                    lemma_eval_fits(**a, dims@, syms@);
                    lemma_eval_fits(**b, dims@, syms@);
                    assert(0 <= x % y < if y < 0 { -y } else { y as int }) by (nonlinear_arith)
                        requires
                            y != 0,
                    ;
                }
                x.checked_rem_euclid(y).unwrap()
            },
        }
    }
}

/// A pure multi-result affine map: `(d0, d1, ..)[s0, ..] -> (expr, expr, ...)`.
#[derive(Clone, Debug, PartialEq, Eq)]
pub struct AffineMap {
    pub num_dims: usize,
    pub num_syms: usize,
    pub exprs: Vec<AffineExpr>,
}

/// The values of all result expressions of `m`.
pub open spec fn spec_map_eval(exprs: Seq<AffineExpr>, dims: Seq<i64>, syms: Seq<i64>) -> Seq<
    int,
> {
    Seq::new(exprs.len(), |i: int| spec_eval(exprs[i], dims, syms))
}

impl AffineMap {
    /// Identity map of rank `n`: `(d0, .., d{n-1}) -> (d0, .., d{n-1})`.
    pub fn identity(n: usize) -> (m: AffineMap)
        ensures
            m.num_dims == n,
            m.num_syms == 0,
            m.exprs@.len() == n,
            forall|i: int| 0 <= i < n ==> m.exprs@[i] == AffineExpr::Dim(i as usize),
    {
        let mut exprs: Vec<AffineExpr> = Vec::new();
        let mut i: usize = 0;
        while i < n
            invariant
                0 <= i <= n,
                exprs@.len() == i,
                forall|j: int| 0 <= j < i ==> exprs@[j] == AffineExpr::Dim(j as usize),
            decreases n - i,
        {
            exprs.push(AffineExpr::Dim(i));
            i = i + 1;
        }
        AffineMap { num_dims: n, num_syms: 0, exprs }
    }

    /// Evaluate every result expression, in order.
    pub fn eval(&self, dims: &[i64], syms: &[i64]) -> (r: Vec<i64>)
        requires
            forall|i: int| 0 <= i < self.exprs@.len() ==> evaluable(#[trigger] self.exprs@[i], dims@, syms@),
        ensures
            r@.len() == self.exprs@.len(),
            forall|i: int| 0 <= i < r@.len() ==> r@[i] == spec_eval(#[trigger] self.exprs@[i], dims@, syms@),
    {
        let mut out: Vec<i64> = Vec::new();
        let mut i: usize = 0;
        while i < self.exprs.len()
            invariant
                0 <= i <= self.exprs@.len(),
                out@.len() == i,
                forall|k: int| 0 <= k < self.exprs@.len() ==> evaluable(#[trigger] self.exprs@[k], dims@, syms@),
                forall|k: int| 0 <= k < i ==> out@[k] == spec_eval(#[trigger] self.exprs@[k], dims@, syms@),
            decreases self.exprs@.len() - i,
        {
            let v = self.exprs[i].eval(dims, syms);
            out.push(v);
            i = i + 1;
        }
        out
    }
}

/// Axis-aligned integer box `[lo, hi]`, inclusive on both ends.
#[derive(Clone, Debug, PartialEq, Eq)]
pub struct BoxSet {
    pub lo: Vec<i64>,
    pub hi: Vec<i64>,
}

/// `point` lies in the box with corners `lo`, `hi`: same rank as `lo`, and
/// `lo[i] <= point[i] <= hi[i]` on every axis that `lo`, `hi` and `point` share.
pub open spec fn box_contains(lo: Seq<i64>, hi: Seq<i64>, point: Seq<i64>) -> bool {
    &&& point.len() == lo.len()
    &&& forall|i: int| 0 <= i < point.len() && i < hi.len() ==> lo[i] <= #[trigger] point[i] <= hi[i]
}

pub open spec fn max_i64(a: i64, b: i64) -> i64 {
    if a >= b { a } else { b }
}

pub open spec fn min_i64(a: i64, b: i64) -> i64 {
    if a <= b { a } else { b }
}

/// The two boxes overlap on every axis of `0 .. n`.
pub open spec fn boxes_overlap(a: BoxSet, b: BoxSet, n: int) -> bool {
    forall|i: int| 0 <= i < n ==> #[trigger] max_i64(a.lo@[i], b.lo@[i]) <= min_i64(a.hi@[i], b.hi@[i])
}

impl BoxSet {
    /// Build a box; `lo` and `hi` must have the same rank.
    pub fn new(lo: Vec<i64>, hi: Vec<i64>) -> (b: BoxSet)
        requires
            lo@.len() == hi@.len(),
        ensures
            b.lo@ == lo@,
            b.hi@ == hi@,
    {
        BoxSet { lo, hi }
    }

    /// Lower corner: the partition origin.
    pub fn origin(&self) -> (o: &[i64])
        ensures
            o@ == self.lo@,
    {
        self.lo.as_slice()
    }

    /// Point membership.
    pub fn contains(&self, point: &[i64]) -> (r: bool)
        ensures
            r == box_contains(self.lo@, self.hi@, point@),
    {
        if point.len() != self.lo.len() {
            return false;
        }
        let mut i: usize = 0;
        while i < point.len() && i < self.hi.len()
            invariant
                point@.len() == self.lo@.len(),
                0 <= i <= point@.len(),
                forall|j: int| 0 <= j < i && j < self.hi@.len() ==> self.lo@[j] <= #[trigger] point@[j] <= self.hi@[j],
            decreases point@.len() - i,
        {
            if !(self.lo[i] <= point[i] && point[i] <= self.hi[i]) {
                return false;
            }
            i = i + 1;
        }
        true
    }

    /// Per-axis intersection; `None` if the boxes are disjoint on some axis.
    pub fn intersect(&self, other: &BoxSet) -> (r: Option<BoxSet>)
        requires
            self.lo@.len() == other.lo@.len(),
            self.hi@.len() >= self.lo@.len(),
            other.hi@.len() >= self.lo@.len(),
        ensures
            r is None <==> !boxes_overlap(*self, *other, self.lo@.len() as int),
            r matches Some(b) ==> {
                &&& b.lo@.len() == self.lo@.len()
                &&& b.hi@.len() == self.lo@.len()
                &&& forall|i: int| 0 <= i < self.lo@.len() ==> #[trigger] b.lo@[i] == max_i64(self.lo@[i], other.lo@[i])
                        && b.hi@[i] == min_i64(self.hi@[i], other.hi@[i])
            },
    {
        let n = self.lo.len();
        let mut lo: Vec<i64> = Vec::new();
        let mut hi: Vec<i64> = Vec::new();
        let mut i: usize = 0;
        while i < n
            invariant
                n == self.lo@.len(),
                self.lo@.len() == other.lo@.len(),
                self.hi@.len() >= n,
                other.hi@.len() >= n,
                0 <= i <= n,
                lo@.len() == i,
                hi@.len() == i,
                boxes_overlap(*self, *other, i as int),
                forall|j: int| 0 <= j < i ==> #[trigger] lo@[j] == max_i64(self.lo@[j], other.lo@[j])
                        && hi@[j] == min_i64(self.hi@[j], other.hi@[j]),
            decreases n - i,
        {
            let l = if self.lo[i] >= other.lo[i] { self.lo[i] } else { other.lo[i] };
            let h = if self.hi[i] <= other.hi[i] { self.hi[i] } else { other.hi[i] };
            if l > h {
                assert(!(max_i64(self.lo@[i as int], other.lo@[i as int]) <= min_i64(self.hi@[i as int], other.hi@[i as int])));
                return None;
            }
            lo.push(l);
            hi.push(h);
            i = i + 1;
        }
        Some(BoxSet { lo, hi })
    }
}

/// One affine constraint: `expr >= 0` or `expr == 0`.
#[derive(Clone, Debug, PartialEq, Eq)]
pub struct Constraint {
    pub expr: AffineExpr,
    pub kind: ConstraintKind,
}

#[derive(Clone, Copy, Debug, PartialEq, Eq, Structural)]
pub enum ConstraintKind {
    /// `expr >= 0`
    GreaterEq,
    /// `expr == 0`
    Equal,
}

/// General affine set: a conjunction of affine constraints.
#[derive(Clone, Debug, PartialEq, Eq)]
pub struct AffineSet {
    pub num_dims: usize,
    pub num_syms: usize,
    pub constraints: Vec<Constraint>,
}

/// Constraint `c` holds at `point` / `syms`.
pub open spec fn constraint_holds(c: Constraint, point: Seq<i64>, syms: Seq<i64>) -> bool {
    match c.kind {
        ConstraintKind::GreaterEq => spec_eval(c.expr, point, syms) >= 0,
        ConstraintKind::Equal => spec_eval(c.expr, point, syms) == 0,
    }
}

/// Every constraint that membership testing reaches can be evaluated: a
/// constraint is evaluated only when all earlier ones held.
pub open spec fn set_evaluable(cs: Seq<Constraint>, point: Seq<i64>, syms: Seq<i64>) -> bool {
    forall|i: int|
        0 <= i < cs.len() && (forall|j: int| 0 <= j < i ==> constraint_holds(#[trigger] cs[j], point, syms))
            ==> evaluable(#[trigger] cs[i].expr, point, syms)
}

impl AffineSet {
    /// Point membership: every constraint must hold.
    pub fn contains(&self, point: &[i64], syms: &[i64]) -> (r: bool)
        requires
            set_evaluable(self.constraints@, point@, syms@),
        ensures
            r == forall|i: int| 0 <= i < self.constraints@.len()
                ==> constraint_holds(#[trigger] self.constraints@[i], point@, syms@),
    {
        let mut i: usize = 0;
        while i < self.constraints.len()
            invariant
                0 <= i <= self.constraints@.len(),
                set_evaluable(self.constraints@, point@, syms@),
                forall|j: int| 0 <= j < i ==> constraint_holds(#[trigger] self.constraints@[j], point@, syms@),
            decreases self.constraints@.len() - i,
        {
            let c = &self.constraints[i];
            assert(evaluable(self.constraints@[i as int].expr, point@, syms@));
            let v = c.expr.eval(point, syms);
            let ok = match c.kind {
                ConstraintKind::GreaterEq => v >= 0,
                ConstraintKind::Equal => v == 0,
            };
            if !ok {
                return false;
            }
            i = i + 1;
        }
        true
    }
}

/// A point lies in the intersection of two boxes exactly when it lies in both.
pub proof fn lemma_intersect_contains(a: BoxSet, b: BoxSet, r: BoxSet, point: Seq<i64>)
    requires
        a.lo@.len() == a.hi@.len(),
        b.lo@.len() == b.hi@.len(),
        a.lo@.len() == b.lo@.len(),
        r.lo@.len() == a.lo@.len(),
        r.hi@.len() == a.lo@.len(),
        forall|i: int| 0 <= i < a.lo@.len() ==> #[trigger] r.lo@[i] == max_i64(a.lo@[i], b.lo@[i])
            && r.hi@[i] == min_i64(a.hi@[i], b.hi@[i]),
    ensures
        box_contains(r.lo@, r.hi@, point) <==> (box_contains(a.lo@, a.hi@, point) && box_contains(
            b.lo@,
            b.hi@,
            point,
        )),
{
    if box_contains(a.lo@, a.hi@, point) && box_contains(b.lo@, b.hi@, point) {
        assert forall|i: int| 0 <= i < point.len() && i < r.hi@.len() implies r.lo@[i] <= #[trigger] point[i] <= r.hi@[i] by {
            assert(a.lo@[i] <= point[i] <= a.hi@[i]);
            assert(b.lo@[i] <= point[i] <= b.hi@[i]);
        }
    }
    if box_contains(r.lo@, r.hi@, point) {
        assert forall|i: int| 0 <= i < point.len() && i < a.hi@.len() implies a.lo@[i] <= #[trigger] point[i] <= a.hi@[i] by {
            assert(r.lo@[i] <= point[i] <= r.hi@[i]);
        }
        assert forall|i: int| 0 <= i < point.len() && i < b.hi@.len() implies b.lo@[i] <= #[trigger] point[i] <= b.hi@[i] by {
            assert(r.lo@[i] <= point[i] <= r.hi@[i]);
        }
    }
}


/// `FloorDiv` and `Mod` of the same operands are Euclidean division: the
/// remainder is never negative and below the divisor's magnitude, and
/// `a == b * (a floordiv b) + (a mod b)`.
pub proof fn lemma_floordiv_mod(a: AffineExpr, b: AffineExpr, dims: Seq<i64>, syms: Seq<i64>)
    requires
        spec_eval(b, dims, syms) != 0,
    ensures
        0 <= spec_eval(AffineExpr::Mod(Box::new(a), Box::new(b)), dims, syms),
        spec_eval(AffineExpr::Mod(Box::new(a), Box::new(b)), dims, syms) < (if spec_eval(b, dims, syms)
            < 0 {
            -spec_eval(b, dims, syms)
        } else {
            spec_eval(b, dims, syms)
        }),
        spec_eval(a, dims, syms) == spec_eval(b, dims, syms) * spec_eval(
            AffineExpr::FloorDiv(Box::new(a), Box::new(b)),
            dims,
            syms,
        ) + spec_eval(AffineExpr::Mod(Box::new(a), Box::new(b)), dims, syms),
{
    let x = spec_eval(a, dims, syms);
    let y = spec_eval(b, dims, syms);
    assert(spec_eval(AffineExpr::Mod(Box::new(a), Box::new(b)), dims, syms) == x % y);
    assert(spec_eval(AffineExpr::FloorDiv(Box::new(a), Box::new(b)), dims, syms) == x / y);
    assert(0 <= x % y < (if y < 0 { -y } else { y }) && x == y * (x / y) + x % y) by (nonlinear_arith)
        requires
            y != 0,
    ;
}

} // verus!
