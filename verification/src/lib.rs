//! Verified core of a CPU emulator for KTIR kernels: affine index maps and
//! sets, the HBM / LX memory model and the load/store data path, grid
//! geometry, per-core execution state, dialect dispatch and the arith, func,
//! scf and linalg handlers, the interpreter loop, multi-core communication
//! scheduling, the textual IR parser, the Metal code generator's pure
//! decision and emission logic, and the program optimizer's fusion and
//! attention re-roll passes.

pub mod text;
pub mod keyed;
pub mod scan;
pub mod context;
pub mod dtypes;
pub mod ir;
pub mod affine;
pub mod memory;
pub mod latency;
pub mod env;
pub mod dialects;
pub mod interpreter;
pub mod parser;
pub mod metal_backend;
pub mod comm_sched;
pub mod shape;
pub mod tensor;
pub mod ops_memory;
pub mod fusion;
pub mod head_rewrite;
pub mod program_shapes;


