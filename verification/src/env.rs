//! Grid geometry: linear core ids and `(x, y, z)` grid positions, plus the
//! read-only resources handed to every op handler.

use vstd::prelude::*;
use crate::dialects::Dispatch;
use crate::dtypes::DType;

verus! {

/// Linear core id -> `(x, y, z)`, x fastest-varying.
pub open spec fn spec_linear_to_grid(shape: (usize, usize, usize), core_id: int) -> (int, int, int) {
    let plane = shape.0 * shape.1;
    let rem = core_id % plane;
    (rem % (shape.0 as int), rem / (shape.0 as int), core_id / plane)
}

/// `(x, y, z)` -> linear core id.
pub open spec fn spec_grid_to_linear(shape: (usize, usize, usize), x: int, y: int, z: int) -> int {
    z * (shape.0 * shape.1) + y * shape.0 + x
}

/// Grid shape and the linear <-> `(x, y, z)` transforms.
pub struct GridExecutor {
    pub grid_shape: (usize, usize, usize),
    pub num_cores: usize,
}

impl GridExecutor {
    /// A grid of `nx * ny * nz` cores.
    pub fn new(grid_shape: (usize, usize, usize)) -> (g: GridExecutor)
        requires
            grid_shape.0 * grid_shape.1 * grid_shape.2 <= usize::MAX,
        ensures
            g.grid_shape == grid_shape,
            g.num_cores == grid_shape.0 * grid_shape.1 * grid_shape.2,
    {
        let (nx, ny, nz) = grid_shape;
        if nz == 0 {
            proof {
                assert(nx * ny * nz == 0) by (nonlinear_arith)
                    requires
                        nz == 0,
                ;
            }
            return GridExecutor { grid_shape, num_cores: 0 };
        }
        proof {
            assert(nx * ny <= nx * ny * nz) by (nonlinear_arith)
                requires
                    nx >= 0,
                    ny >= 0,
                    nz >= 1,
            ;
        }
        let num_cores = nx * ny * nz;
        GridExecutor { grid_shape, num_cores }
    }

    /// Linear core id -> `(x, y, z)`.
    pub fn linear_to_grid(&self, core_id: usize) -> (p: (usize, usize, usize))
        requires
            self.grid_shape.0 > 0,
            self.grid_shape.1 > 0,
            self.grid_shape.0 * self.grid_shape.1 <= usize::MAX,
        ensures
            (p.0 as int, p.1 as int, p.2 as int) == spec_linear_to_grid(self.grid_shape, core_id as int),
    {
        let (nx, ny, _nz) = self.grid_shape;
        let plane = nx * ny;
        proof {
            assert(plane > 0) by (nonlinear_arith)
                requires
                    nx > 0,
                    ny > 0,
                    plane == nx * ny,
            ;
        }
        let z = core_id / plane;
        let rem = core_id % plane;
        (rem % nx, rem / nx, z)
    }

    /// `(x, y, z)` -> linear core id.
    pub fn grid_to_linear(&self, x: usize, y: usize, z: usize) -> (id: usize)
        requires
            spec_grid_to_linear(self.grid_shape, x as int, y as int, z as int) <= usize::MAX,
        ensures
            id == spec_grid_to_linear(self.grid_shape, x as int, y as int, z as int),
    {
        let (nx, ny, _nz) = self.grid_shape;
        proof {
            assert(0 <= z * (nx * ny) && 0 <= y * nx) by (nonlinear_arith)
                requires
                    z >= 0,
                    nx >= 0,
                    ny >= 0,
                    y >= 0,
            ;
            assert(z * (nx * ny) <= usize::MAX && y * nx <= usize::MAX);
            if z > 0 {
                assert(nx * ny <= z * (nx * ny)) by (nonlinear_arith)
                    requires
                        z > 0,
                        nx * ny >= 0,
                ;
            }
        }
        if z == 0 {
            proof {
                assert(z * (nx * ny) == 0) by (nonlinear_arith)
                    requires
                        z == 0,
                ;
            }
            return y * nx + x;
        }
        let plane: usize = nx * ny;
        z * plane + y * nx + x
    }
}

/// Converting a core id to its grid position and back gives the id again.
pub proof fn lemma_linear_grid_roundtrip(shape: (usize, usize, usize), core_id: nat)
    requires
        shape.0 > 0,
        shape.1 > 0,
    ensures
        ({
            let p = spec_linear_to_grid(shape, core_id as int);
            spec_grid_to_linear(shape, p.0, p.1, p.2) == core_id
        }),
{
    let nx = shape.0 as int;
    let plane = (shape.0 * shape.1) as int;
    assert(plane > 0) by (nonlinear_arith)
        requires
            nx > 0,
            shape.1 > 0,
            plane == nx * shape.1,
    ;
    let rem = core_id as int % plane;
    vstd::arithmetic::div_mod::lemma_fundamental_div_mod(core_id as int, plane);
    vstd::arithmetic::div_mod::lemma_fundamental_div_mod(rem, nx);
    vstd::arithmetic::mul::lemma_mul_is_commutative(plane, core_id as int / plane);
    vstd::arithmetic::mul::lemma_mul_is_commutative(nx, rem / nx);
}

/// A position inside the grid maps to an id whose position is itself.
pub proof fn lemma_grid_linear_roundtrip(shape: (usize, usize, usize), x: nat, y: nat, z: nat)
    requires
        x < shape.0,
        y < shape.1,
    ensures
        spec_linear_to_grid(shape, spec_grid_to_linear(shape, x as int, y as int, z as int)) == (
            x as int,
            y as int,
            z as int,
        ),
{
    let nx = shape.0 as int;
    let ny = shape.1 as int;
    let plane = (shape.0 * shape.1) as int;
    let inner = y * nx + x;
    assert(0 <= inner < plane) by (nonlinear_arith)
        requires
            0 <= x < nx,
            0 <= y < ny,
            inner == y * nx + x,
            plane == nx * ny,
    ;
    let id = z * plane + inner;
    vstd::arithmetic::div_mod::lemma_fundamental_div_mod_converse(id, plane, z as int, inner);
    vstd::arithmetic::div_mod::lemma_fundamental_div_mod_converse(inner, nx, y as int, x as int);
}

/// The host's IEEE-754 single-precision arithmetic, on bit patterns.
///
/// Element data and float scalars travel through the interpreter as `f32`
/// bit patterns; the arithmetic itself is supplied by the embedding program.
/// Nothing is assumed of what these methods return.
pub trait FloatArith {
    /// `a + b`.
    fn addf(&self, a: u32, b: u32) -> u32;

    /// `a * b`.
    fn mulf(&self, a: u32, b: u32) -> u32;

    /// `a - b`.
    fn subf(&self, a: u32, b: u32) -> u32;

    /// `a < b`.
    fn ltf(&self, a: u32, b: u32) -> bool;

    /// The `f32` nearest to the integer `x`, ties to even.
    fn int_to_f32(&self, x: i64) -> u32;

    /// The `f32` nearest to the decimal literal `lit`, or `None` when `lit`
    /// is not a float literal.
    fn parse_f32(&self, lit: &str) -> Option<u32>;

    /// The `f32` value of the half-precision bit pattern `h`.
    fn widen_f16(&self, h: u16) -> u32;


    /// `x` rounded to the nearest integer, ties away from zero, saturating
    /// at the `i64` bounds, and 0 for NaN (Rust's `x.round() as i64`).
    fn round_to_i64(&self, x: u32) -> i64;

    /// `x` rounded to the values `dtype` can hold (nearest-even `f16`,
    /// truncated integers, 0 / 1 for `bool`; unchanged for `f32`), widened
    /// back to `f32`.
    fn round_to_dtype(&self, x: u32, dtype: DType) -> u32;
}

/// `r` is a value `floats.addf(a, b)` returns.
pub open spec fn addf_gives<F: FloatArith>(floats: &F, a: u32, b: u32, r: u32) -> bool {
    call_ensures(F::addf, (floats, a, b), r)
}

/// `r` is a value `floats.mulf(a, b)` returns.
pub open spec fn mulf_gives<F: FloatArith>(floats: &F, a: u32, b: u32, r: u32) -> bool {
    call_ensures(F::mulf, (floats, a, b), r)
}

/// `r` is a value `floats.round_to_dtype(x, dtype)` returns.
pub open spec fn round_gives<F: FloatArith>(floats: &F, x: u32, dtype: DType, r: u32) -> bool {
    call_ensures(F::round_to_dtype, (floats, x, dtype), r)
}

/// `r` is a value `floats.widen_f16(h)` returns.
pub open spec fn widen_gives<F: FloatArith>(floats: &F, h: u16, r: u32) -> bool {
    call_ensures(F::widen_f16, (floats, h), r)
}

/// `r` is a value `floats.round_to_i64(x)` returns.
pub open spec fn round_i64_gives<F: FloatArith>(floats: &F, x: u32, r: i64) -> bool {
    call_ensures(F::round_to_i64, (floats, x), r)
}

/// `r` is a value `floats.int_to_f32(v)` returns.
pub open spec fn int_f32_gives<F: FloatArith>(floats: &F, v: i64, r: u32) -> bool {
    call_ensures(F::int_to_f32, (floats, v), r)
}

/// `r` is a value `floats.parse_f32(lit)` returns.
pub open spec fn parse_gives<F: FloatArith>(floats: &F, lit: &str, r: Option<u32>) -> bool {
    call_ensures(F::parse_f32, (floats, lit), r)
}

/// `r` is `x` as a compute result of `dtype` holds it: `x` itself for
/// `f32`, else what `floats.round_to_dtype(x, dtype)` returns.
pub open spec fn rounded_to<F: FloatArith>(floats: &F, x: u32, dtype: DType, r: u32) -> bool {
    if dtype == DType::F32 {
        r == x
    } else {
        round_gives(floats, x, dtype, r)
    }
}

/// `r` is the host's sum of `a` and `b`, rounded to `dtype`.
pub open spec fn sum_rounded<F: FloatArith>(floats: &F, a: u32, b: u32, dtype: DType, r: u32) -> bool {
    exists|s: u32| #[trigger] addf_gives(floats, a, b, s) && round_gives(floats, s, dtype, r)
}

/// Read-only resources passed to every handler: the dispatch table (handlers
/// run nested regions through it), grid metadata, and the host's float
/// arithmetic.
pub struct ExecutionEnv<'a, F> {
    pub dispatch: &'a Dispatch,
    pub grid: &'a GridExecutor,
    pub floats: &'a F,
}

impl<'a, F: FloatArith> ExecutionEnv<'a, F> {
    pub fn new(dispatch: &'a Dispatch, grid: &'a GridExecutor, floats: &'a F) -> (e: ExecutionEnv<'a, F>)
        ensures
            *e.dispatch == *dispatch,
            *e.grid == *grid,
            *e.floats == *floats,
    {
        ExecutionEnv { dispatch, grid, floats }
    }
}

} // verus!
