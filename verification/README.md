# ktir emulator core

A CPU emulator for KTIR kernels (MLIR-style functions over a grid of cores
with HBM and per-core LX scratchpads), written in Verus.

- `src/` is the verified library: the IR and its text parser, affine maps
  and sets, shape arithmetic, the memory hierarchy and the load/store data
  path, per-core execution contexts, the dialect handlers (`arith`, `func`,
  `scf`, `linalg`), the interpreter, the multi-core communication scheduler,
  the Metal code generator's decisions and text emission, and the program
  optimizer (cross-function fusion, attention re-roll). Element data travels
  as `f32` bit patterns; float arithmetic itself is supplied by the embedding
  program through the `FloatArith` trait and is not assumed to satisfy
  anything: contracts that speak of element values say which host call
  produced each element, from which operands. The half-precision narrowing
  of the memory path and of per-op rounding is integer bit logic and is
  verified here.
- `tests/` exercises the library on concrete programs.
- `app/` is the host side: half-precision widening and byte codecs on real
  floats (narrowing calls the library), the host `FloatArith`, the roofline configuration, a portable
  GEMM, and the process-wide parallel-execution flag.
