use lib::metal_backend::{
    choose_matmul_backend, device_matmul_tier, effective_matmul_tier, emit_kernel, emit_msl, tier_implemented,
    Epilogue, MatmulBackend, MatmulTier, HIGHEST_IMPLEMENTED,
};
use lib::parser::parse_module;
use lib::metal_backend::MatmulTier::{Naive, Simdgroup};
use lib::metal_backend::MatmulBackend::{Accelerate, Nax};

const CHAIN: &str = r#"
module {
  func.func @chain(%a_ptr: index, %b_ptr: index, %c_ptr: index, %out_ptr: index) attributes {grid = [1]} {
    %c0 = arith.constant 0 : index
    %va = ktdp.construct_memory_view %a_ptr, sizes: [8], strides: [1] {
      coordinate_set = affine_set<(d0) : (d0 >= 0, -d0 + 7 >= 0)>, memory_space = #ktdp.spyre_memory_space<HBM>
    } : memref<8xf16>
    %vb = ktdp.construct_memory_view %b_ptr, sizes: [8], strides: [1] {
      coordinate_set = affine_set<(d0) : (d0 >= 0, -d0 + 7 >= 0)>, memory_space = #ktdp.spyre_memory_space<HBM>
    } : memref<8xf16>
    %vc = ktdp.construct_memory_view %c_ptr, sizes: [8], strides: [1] {
      coordinate_set = affine_set<(d0) : (d0 >= 0, -d0 + 7 >= 0)>, memory_space = #ktdp.spyre_memory_space<HBM>
    } : memref<8xf16>
    %ta = ktdp.construct_access_tile %va[%c0] {
      access_tile_set = affine_set<(d0) : (d0 >= 0, -d0 + 7 >= 0)>, access_tile_order = affine_map<(d0) -> (d0)>
    } : memref<8xf16> -> !ktdp.access_tile<8xindex>
    %tb = ktdp.construct_access_tile %vb[%c0] {
      access_tile_set = affine_set<(d0) : (d0 >= 0, -d0 + 7 >= 0)>, access_tile_order = affine_map<(d0) -> (d0)>
    } : memref<8xf16> -> !ktdp.access_tile<8xindex>
    %tc = ktdp.construct_access_tile %vc[%c0] {
      access_tile_set = affine_set<(d0) : (d0 >= 0, -d0 + 7 >= 0)>, access_tile_order = affine_map<(d0) -> (d0)>
    } : memref<8xf16> -> !ktdp.access_tile<8xindex>
    %la = ktdp.load %ta : !ktdp.access_tile<8xindex> -> tensor<8xf16>
    %lb = ktdp.load %tb : !ktdp.access_tile<8xindex> -> tensor<8xf16>
    %lc = ktdp.load %tc : !ktdp.access_tile<8xindex> -> tensor<8xf16>
    %ab = arith.mulf %la, %lb : tensor<8xf16>
    %e = math.exp %ab : tensor<8xf16>
    %r = arith.addf %e, %lc : tensor<8xf16>
    %vout = ktdp.construct_memory_view %out_ptr, sizes: [8], strides: [1] {
      coordinate_set = affine_set<(d0) : (d0 >= 0, -d0 + 7 >= 0)>, memory_space = #ktdp.spyre_memory_space<HBM>
    } : memref<8xf16>
    %tout = ktdp.construct_access_tile %vout[%c0] {
      access_tile_set = affine_set<(d0) : (d0 >= 0, -d0 + 7 >= 0)>, access_tile_order = affine_map<(d0) -> (d0)>
    } : memref<8xf16> -> !ktdp.access_tile<8xindex>
    ktdp.store %r, %tout : tensor<8xf16>, !ktdp.access_tile<8xindex>
    return
  }
}
"#;

#[test]
fn fuses_elementwise_chain_into_one_expression() {
    // exp(a * b) + c  -> a single fused kernel, not three passes.
    let module = parse_module(CHAIN).unwrap();
    let kernel = emit_kernel(&module, "chain").expect("emit fused chain");
    // One kernel, three input buffers (a,b,c) + one output, deduped & ordered.
    let names: Vec<&str> = kernel.buffers.iter().map(|b| b.name.as_str()).collect();
    assert_eq!(names, vec!["a_ptr", "b_ptr", "c_ptr", "out_ptr"], "fused buffer set");
    assert_eq!(kernel.buffers.iter().filter(|b| b.is_output).count(), 1);
    // The whole DAG collapses into one assignment: exp(a*b) + c.
    assert!(
        kernel.source.contains("out_ptr[gid] = (exp((a_ptr[gid] * b_ptr[gid]))) + c_ptr[gid];"),
        "expected one fused expression, got:\n{}",
        kernel.source
    );
}

#[test]
fn chain_kernel_signature() {
    let module = parse_module(CHAIN).unwrap();
    let msl = emit_msl(&module, "chain").unwrap();
    assert!(msl.starts_with("#include <metal_stdlib>\nusing namespace metal;\n\nkernel void chain(\n"));
    assert!(msl.contains("    device const half* a_ptr [[buffer(0)]],\n"));
    assert!(msl.contains("    device const half* c_ptr [[buffer(2)]],\n"));
    assert!(msl.contains("    device half* out_ptr [[buffer(3)]],\n"));
    assert!(msl.contains("    uint gid [[thread_position_in_grid]]\n) {\n"));
    assert!(msl.ends_with(";\n}\n"));
    assert!(emit_msl(&module, "missing").is_err());
}

#[test]
fn non_elementwise_compute_is_rejected() {
    let src = CHAIN.replace("math.exp %ab", "linalg.matmul %ab");
    let module = parse_module(&src).unwrap();
    assert!(emit_msl(&module, "chain").is_err());
    let no_store = CHAIN.replace("ktdp.store %r, %tout", "ktdp.load %r, %tout");
    let module = parse_module(&no_store).unwrap();
    assert!(emit_kernel(&module, "chain").is_err());
}

#[test]
fn metal_backend_matmul_tier_detection() {
    // M5+ -> NAX (Neural Accelerator).
    assert_eq!(device_matmul_tier("Apple M5"), MatmulTier::Nax);
    assert_eq!(device_matmul_tier("Apple M5 Pro"), MatmulTier::Nax);
    assert_eq!(device_matmul_tier("Apple M6 Max"), MatmulTier::Nax); // forward-compatible
    // M1..M4 Apple GPUs -> simdgroup matrix units.
    assert_eq!(device_matmul_tier("Apple M1"), Simdgroup);
    assert_eq!(device_matmul_tier("Apple M3 Max"), Simdgroup);
    assert_eq!(device_matmul_tier("Apple M4"), Simdgroup);
    // An Apple GPU with no M-number still gets the matrix path.
    assert_eq!(device_matmul_tier("Apple Paravirtual device"), Simdgroup);
    // Non-Apple -> naive floor.
    assert_eq!(device_matmul_tier("Intel UHD Graphics 630"), Naive);
    assert_eq!(device_matmul_tier("AMD Radeon Pro 5500M"), Naive);
    // Effective tier is the best *implemented* tier the device supports.
    assert_eq!(effective_matmul_tier("Apple M5"), HIGHEST_IMPLEMENTED);
    assert_eq!(effective_matmul_tier("Apple M5"), MatmulTier::Nax);
    assert_eq!(effective_matmul_tier("Apple M4"), Simdgroup);
    assert_eq!(effective_matmul_tier("Apple M1"), Simdgroup);
    assert_eq!(effective_matmul_tier("Intel UHD Graphics 630"), Naive);
    assert!(tier_implemented(Simdgroup));
}

#[test]
fn matmul_backend_gating() {
    // M5 sends large GEMMs (>= measured ~1024^3 crossover) to the NAX engine.
    assert_eq!(choose_matmul_backend("Apple M5", 1024, 1024, 1024), Nax); // 32 blocks
    assert_eq!(choose_matmul_backend("Apple M5", 2048, 2048, 2048), Nax);
    // Smaller / LX-sized matmuls -> Accelerate (AMX), faster there.
    assert_eq!(choose_matmul_backend("Apple M5", 512, 512, 512), Accelerate); // 8 blocks < 32
    assert_eq!(choose_matmul_backend("Apple M5", 256, 256, 256), Accelerate);
    // Pre-M5: the simdgroup GPU path never beats AMX in wall-clock -> Accelerate.
    assert_eq!(choose_matmul_backend("Apple M4", 2048, 2048, 2048), Accelerate);
    assert_eq!(choose_matmul_backend("Apple M1", 4096, 4096, 4096), Accelerate);
    // Non-Apple GPUs -> Accelerate.
    assert_eq!(choose_matmul_backend("Intel UHD Graphics 630", 4096, 4096, 4096), Accelerate);
}

#[test]
fn gate_edges_and_backend_kinds() {
    // deep enough but too few blocks; enough blocks but too shallow
    assert_eq!(choose_matmul_backend("Apple M5", 1024, 1024, 768), Accelerate); // 8 * 3 = 24 blocks
    assert_eq!(choose_matmul_backend("Apple M5", 1024, 1024, 769), Nax); // 8 * 4 = 32 blocks
    assert_eq!(choose_matmul_backend("Apple M5", 1024, 255, 1024), Accelerate);
    assert_eq!(choose_matmul_backend("Apple M5", 1024, 256, 1024), Nax);
    assert!(Nax.is_gpu());
    assert!(MatmulBackend::Simdgroup.is_gpu());
    assert!(!Accelerate.is_gpu());
}

#[test]
fn epilogues_from_op_names() {
    assert_eq!(Epilogue::from_binary_op("arith.addf"), Some(Epilogue { binop: 1, act: 0 }));
    assert_eq!(Epilogue::from_binary_op("linalg.sub"), Some(Epilogue { binop: 3, act: 0 }));
    assert_eq!(Epilogue::from_binary_op("arith.maxf"), Some(Epilogue { binop: 4, act: 0 }));
    assert_eq!(Epilogue::from_binary_op("arith.minimumf"), Some(Epilogue { binop: 5, act: 0 }));
    assert_eq!(Epilogue::from_binary_op("math.exp"), None);
    assert_eq!(Epilogue::from_unary_op("math.tanh"), Some(Epilogue { binop: 0, act: 2 }));
    assert_eq!(Epilogue::from_unary_op("math.exp"), Some(Epilogue { binop: 0, act: 3 }));
    assert_eq!(Epilogue::from_unary_op("arith.addf"), None);
    assert_eq!(Epilogue::none(), Epilogue { binop: 0, act: 0 });
}

/// The element-wise vector add kernel `add_kernel`: each of 32 cores adds one
/// 128-element block of two 4096-element `f16` vectors.
const VECTOR_ADD: &str = r#"
module {
  func.func @add_kernel(%x_ptr: index, %y_ptr: index, %output_ptr: index, %BLOCK_SIZE: index) attributes {grid = [32]} {
    %core_id = ktdp.get_compute_tile_id : index
    %offset = %core_id * %BLOCK_SIZE : index
    %x_view = ktdp.construct_memory_view %x_ptr, sizes: [4096], strides: [1] {
      coordinate_set = affine_set<(d0) : (d0 >= 0, -d0 + 4095 >= 0)>, memory_space = #ktdp.spyre_memory_space<HBM>
    } : memref<4096xf16>
    %y_view = ktdp.construct_memory_view %y_ptr, sizes: [4096], strides: [1] {
      coordinate_set = affine_set<(d0) : (d0 >= 0, -d0 + 4095 >= 0)>, memory_space = #ktdp.spyre_memory_space<HBM>
    } : memref<4096xf16>
    %output_view = ktdp.construct_memory_view %output_ptr, sizes: [4096], strides: [1] {
      coordinate_set = affine_set<(d0) : (d0 >= 0, -d0 + 4095 >= 0)>, memory_space = #ktdp.spyre_memory_space<HBM>
    } : memref<4096xf16>
    %x_tile = ktdp.construct_access_tile %x_view[%offset] {
      access_tile_set = affine_set<(d0) : (d0 >= 0, -d0 + 127 >= 0)>, access_tile_order = affine_map<(d0) -> (d0)>
    } : memref<4096xf16> -> !ktdp.access_tile<128xindex>
    %y_tile = ktdp.construct_access_tile %y_view[%offset] {
      access_tile_set = affine_set<(d0) : (d0 >= 0, -d0 + 127 >= 0)>, access_tile_order = affine_map<(d0) -> (d0)>
    } : memref<4096xf16> -> !ktdp.access_tile<128xindex>
    %x = ktdp.load %x_tile : !ktdp.access_tile<128xindex> -> tensor<128xf16>
    %y = ktdp.load %y_tile : !ktdp.access_tile<128xindex> -> tensor<128xf16>
    %output = arith.addf %x, %y : tensor<128xf16>
    %output_tile = ktdp.construct_access_tile %output_view[%offset] {
      access_tile_set = affine_set<(d0) : (d0 >= 0, -d0 + 127 >= 0)>, access_tile_order = affine_map<(d0) -> (d0)>
    } : memref<4096xf16> -> !ktdp.access_tile<128xindex>
    ktdp.store %output, %output_tile : tensor<128xf16>, !ktdp.access_tile<128xindex>
    return
  }
}
"#;

#[test]
fn metal_backend_lowers_vector_add_to_msl() {
    let module = parse_module(VECTOR_ADD).unwrap();
    let msl = emit_msl(&module, "add_kernel").expect("emit MSL");

    // Structural checks on the emitted shader.
    assert!(msl.contains("#include <metal_stdlib>"));
    assert!(msl.contains("kernel void add_kernel("));
    assert!(msl.contains("thread_position_in_grid"));
    // Three f16 buffers: two read-only inputs, one writable output.
    assert!(msl.contains("device const half* x_ptr [[buffer(0)]]"));
    assert!(msl.contains("device const half* y_ptr [[buffer(1)]]"));
    assert!(msl.contains("device half* output_ptr [[buffer(2)]]"));
    // The element-wise add, with the output buffer on the LHS.
    assert!(msl.contains("output_ptr[gid] = x_ptr[gid] + y_ptr[gid];"), "unexpected body:\n{msl}");
}

/// A small kernel whose only compute is a `linalg.matmul`.
const MATMUL_SMALL: &str = r#"
module {
  func.func @matmul_small(%a_ptr: index, %b_ptr: index, %c_ptr: index) attributes {grid = [1]} {
    %c0 = arith.constant 0 : index
    %va = ktdp.construct_memory_view %a_ptr, sizes: [4, 4], strides: [4, 1] {
      coordinate_set = affine_set<(d0, d1) : (d0 >= 0, -d0 + 3 >= 0, d1 >= 0, -d1 + 3 >= 0)>, memory_space = #ktdp.spyre_memory_space<HBM>
    } : memref<4x4xf16>
    %vb = ktdp.construct_memory_view %b_ptr, sizes: [4, 4], strides: [4, 1] {
      coordinate_set = affine_set<(d0, d1) : (d0 >= 0, -d0 + 3 >= 0, d1 >= 0, -d1 + 3 >= 0)>, memory_space = #ktdp.spyre_memory_space<HBM>
    } : memref<4x4xf16>
    %vc = ktdp.construct_memory_view %c_ptr, sizes: [4, 4], strides: [4, 1] {
      coordinate_set = affine_set<(d0, d1) : (d0 >= 0, -d0 + 3 >= 0, d1 >= 0, -d1 + 3 >= 0)>, memory_space = #ktdp.spyre_memory_space<HBM>
    } : memref<4x4xf16>
    %ta = ktdp.construct_access_tile %va[%c0, %c0] {
      access_tile_set = affine_set<(d0, d1) : (d0 >= 0, -d0 + 3 >= 0, d1 >= 0, -d1 + 3 >= 0)>, access_tile_order = affine_map<(d0, d1) -> (d0, d1)>
    } : memref<4x4xf16> -> !ktdp.access_tile<4x4xindex>
    %tb = ktdp.construct_access_tile %vb[%c0, %c0] {
      access_tile_set = affine_set<(d0, d1) : (d0 >= 0, -d0 + 3 >= 0, d1 >= 0, -d1 + 3 >= 0)>, access_tile_order = affine_map<(d0, d1) -> (d0, d1)>
    } : memref<4x4xf16> -> !ktdp.access_tile<4x4xindex>
    %tc = ktdp.construct_access_tile %vc[%c0, %c0] {
      access_tile_set = affine_set<(d0, d1) : (d0 >= 0, -d0 + 3 >= 0, d1 >= 0, -d1 + 3 >= 0)>, access_tile_order = affine_map<(d0, d1) -> (d0, d1)>
    } : memref<4x4xf16> -> !ktdp.access_tile<4x4xindex>
    %a = ktdp.load %ta : !ktdp.access_tile<4x4xindex> -> tensor<4x4xf16>
    %b = ktdp.load %tb : !ktdp.access_tile<4x4xindex> -> tensor<4x4xf16>
    %init = tensor.empty() : tensor<4x4xf16>
    %c = linalg.matmul ins(%a, %b : tensor<4x4xf16>, tensor<4x4xf16>) outs(%init : tensor<4x4xf16>) -> tensor<4x4xf16>
    ktdp.store %c, %tc : tensor<4x4xf16>, !ktdp.access_tile<4x4xindex>
    return
  }
}
"#;

#[test]
fn metal_backend_rejects_non_elementwise() {
    // matmul_small has a linalg.matmul -> not lowerable to an element-wise kernel.
    if let Ok(module) = parse_module(MATMUL_SMALL) {
        let name = module.functions[0].name.clone();
        assert!(emit_msl(&module, &name).is_err());
    }
}

#[test]
fn matmul_kernel_parses_and_is_refused_by_the_emitter() {
    let module = parse_module(MATMUL_SMALL).unwrap();
    assert_eq!(module.functions[0].name, "matmul_small");
    assert!(emit_msl(&module, "matmul_small").is_err());
    assert!(emit_kernel(&module, "matmul_small").is_err());
}
