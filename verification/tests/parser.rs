use lib::dtypes::DType;
use lib::dialects::Dispatch;
use lib::env::{ExecutionEnv, FloatArith, GridExecutor};
use lib::interpreter::{execute_ops, single_core_context};
use lib::ir::{Attr, Scalar, Value};
use lib::parser::{constant_attr_to_value, parse_module};

struct HostF32;

impl FloatArith for HostF32 {
    fn addf(&self, a: u32, b: u32) -> u32 {
        (f32::from_bits(a) + f32::from_bits(b)).to_bits()
    }
    fn mulf(&self, a: u32, b: u32) -> u32 {
        (f32::from_bits(a) * f32::from_bits(b)).to_bits()
    }
    fn subf(&self, a: u32, b: u32) -> u32 {
        (f32::from_bits(a) - f32::from_bits(b)).to_bits()
    }
    fn ltf(&self, a: u32, b: u32) -> bool {
        f32::from_bits(a) < f32::from_bits(b)
    }
    fn int_to_f32(&self, x: i64) -> u32 {
        (x as f32).to_bits()
    }
    fn parse_f32(&self, lit: &str) -> Option<u32> {
        lit.parse::<f64>().ok().map(|x| (x as f32).to_bits())
    }
    fn round_to_dtype(&self, x: u32, _dtype: DType) -> u32 {
        x
    }
    fn widen_f16(&self, h: u16) -> u32 {
        let sign = ((h & 0x8000) as u32) << 16;
        let exp = ((h >> 10) & 0x1f) as u32;
        let mant = (h & 0x03ff) as u32;
        if exp == 0 && mant == 0 {
            sign
        } else if exp == 0 {
            (if sign != 0 { -1.0f32 } else { 1.0 } * mant as f32 * 2.0f32.powi(-24)).to_bits()
        } else if exp == 0x1f {
            sign | 0x7f80_0000 | (mant << 13)
        } else {
            sign | ((exp + 127 - 15) << 23) | (mant << 13)
        }
    }
    fn round_to_i64(&self, x: u32) -> i64 {
        f32::from_bits(x).round() as i64
    }
}

#[test]
fn parse_then_execute_arith_function() {
    let src = r#"
        module {
          func.func @f() attributes {grid = [1]} {
            %a = arith.constant 2.0 : f32
            %b = arith.constant 3.0 : f32
            %c = arith.addf %a, %b : f32
            %d = arith.mulf %c, %a : f32
            return
          }
        }
    "#;
    let module = parse_module(src).unwrap();
    let f = module.get_function("f").unwrap();

    let dispatch = Dispatch::new();
    let grid = GridExecutor::new(f.grid);
    let env = ExecutionEnv::new(&dispatch, &grid, &HostF32);
    let mut ctx = single_core_context();
    execute_ops(&f.operations, &mut ctx, &env).unwrap();
    match ctx.get_value("%d").unwrap() {
        Value::Scalar(Scalar::F32(v)) => assert_eq!(f32::from_bits(*v), 10.0), // (2+3)*2
        other => panic!("expected F32(10.0), got {other:?}"),
    }
}

#[test]
fn header_grid_args_and_infix_arith() {
    let src = r#"
module {
  // a comment that mentions func.func @nope() {
  func.func @k(%x_ptr: index, %n: index, bad) -> () attributes {grid = [4, 2]} {
    %c = arith.constant 7 : index
    %o = %c * %n : index
    %s = %c + %n : index
    return
  }
}
"#;
    let module = parse_module(src).unwrap();
    assert_eq!(module.functions.len(), 1);
    let f = module.get_function("k").unwrap();
    assert_eq!(f.grid, (4, 2, 1));
    assert_eq!(f.arg_names(), vec!["x_ptr".to_string(), "n".to_string()]);
    assert_eq!(f.arguments[0].1, "index");
    let ops: Vec<&str> = f.operations.iter().map(|o| o.op_type.as_str()).collect();
    assert_eq!(ops, vec!["arith.constant", "arith.muli", "arith.addi", "return"]);
    assert_eq!(f.operations[1].operands, vec!["%c".to_string(), "%n".to_string()]);
    assert_eq!(f.operations[1].result.as_deref(), Some("%o"));
    assert_eq!(f.operations[1].result_type.as_deref(), Some("index"));
    match f.operations[0].get_attr("value") {
        Some(Attr::Int(7)) => {}
        other => panic!("expected Int(7), got {other:?}"),
    }
}

#[test]
fn multi_line_op_tokenizes_as_one() {
    let src = r#"
module {
  func.func @m(%p: index) attributes {grid = [1]} {
    %c0 = arith.constant 0 : index
    %v = ktdp.construct_memory_view %p, sizes: [8], strides: [1] {
      coordinate_set = affine_set<(d0) : (d0 >= 0, -d0 + 7 >= 0)>, memory_space = #ktdp.spyre_memory_space<HBM>
    } : memref<8xf16>
    %t = ktdp.construct_access_tile %v[%c0] {
      access_tile_set = affine_set<(d0) : (d0 >= 0, -d0 + 7 >= 0)>
    } : memref<8xf16> -> !ktdp.access_tile<8xindex>
    return
  }
}
"#;
    let module = parse_module(src).unwrap();
    let f = module.get_function("m").unwrap();
    assert_eq!(f.operations.len(), 4);
    let v = &f.operations[1];
    assert_eq!(v.op_type, "ktdp.construct_memory_view");
    assert_eq!(v.operands, vec!["%p".to_string()]);
    assert_eq!(v.result_type.as_deref(), Some("memref<8xf16>"));
    let t = &f.operations[2];
    assert_eq!(t.operands, vec!["%v".to_string(), "%c0".to_string()]);
    assert_eq!(t.result_type.as_deref(), Some("!ktdp.access_tile<8xindex>"));
}

#[test]
fn constant_literals() {
    let module = parse_module(
        "func.func @c() {\n %a = arith.constant true : i1\n %b = arith.constant -12 : i64\n %c = arith.constant 1.5e3 : f32\n}\n",
    )
    .unwrap();
    let f = &module.functions[0];
    assert!(matches!(f.operations[0].get_attr("value"), Some(Attr::Bool(true))));
    assert!(matches!(f.operations[1].get_attr("value"), Some(Attr::Int(-12))));
    match f.operations[2].get_attr("value") {
        Some(Attr::Float(s)) => assert_eq!(s, "1.5e3"),
        other => panic!("got {other:?}"),
    }
    assert!(matches!(constant_attr_to_value(&Attr::Int(3), &HostF32), Some(Value::Scalar(Scalar::I64(3)))));
    match constant_attr_to_value(&Attr::Float("1.5e3".to_string()), &HostF32) {
        Some(Value::Scalar(Scalar::F32(b))) => assert_eq!(f32::from_bits(b), 1500.0),
        other => panic!("got {other:?}"),
    }
    assert!(constant_attr_to_value(&Attr::Str("x".to_string()), &HostF32).is_none());
    // a malformed literal is an error
    assert!(parse_module("func.func @c() {\n %a = arith.constant 1.2.3 : f32\n}\n").is_err());
    assert!(parse_module("func.func @c() {\n %a = arith.constant zz : i32\n}\n").is_err());
}

#[test]
fn missing_pieces_are_errors() {
    assert!(parse_module("func.func nope").is_err());
    assert!(parse_module("func.func @f").is_err());
    assert!(parse_module("func.func @f(%a: index").is_err());
    assert!(parse_module("func.func @f(%a: index)").is_err());
    assert_eq!(parse_module("module {}").unwrap().functions.len(), 0);
}

#[test]
fn error_messages_name_the_offending_piece() {
    let bad_float = parse_module("func.func @c() {\n %a = arith.constant 1.2.3 : f32\n}\n").unwrap_err();
    assert_eq!(bad_float, "arith.constant: bad float literal \"1.2.3\"");
    let bad_int = parse_module("func.func @c() {\n %a = arith.constant zz : i32\n}\n").unwrap_err();
    assert_eq!(bad_int, "arith.constant: bad int literal \"zz\"");
    let overflow = parse_module("func.func @c() {\n %a = arith.constant 9223372036854775808 : i64\n}\n").unwrap_err();
    assert_eq!(overflow, "arith.constant: bad int literal \"9223372036854775808\"");
    assert_eq!(parse_module("func.func nope").unwrap_err(), "func.func missing '@name'");
    assert_eq!(parse_module("func.func @f").unwrap_err(), "unterminated function name");
    assert_eq!(parse_module("func.func @f {").unwrap_err(), "function missing arg list");
    assert_eq!(parse_module("func.func @f(%a: index").unwrap_err(), "unbalanced function arg parens");
    assert_eq!(parse_module("func.func @f(%a: index)").unwrap_err(), "function missing body");
}

#[test]
fn grid_forms_and_crlf_lines() {
    let text = "func.func @g(%x: index,  %y : f32, junk) attributes {grid = [+4, 2]} {\r\n  %c = arith.constant 7 : index\r\n  return\r\n}\r\n";
    let module = parse_module(text).unwrap();
    let f = &module.functions[0];
    assert_eq!(f.grid, (4, 2, 1));
    assert_eq!(
        f.arguments,
        vec![("%x".to_string(), "index".to_string()), ("%y".to_string(), "f32".to_string())]
    );
    assert_eq!(f.operations.len(), 2);
    assert_eq!(f.operations[0].result_type.as_deref(), Some("index"));
    assert_eq!(f.operations[1].op_type, "return");
}

#[test]
fn operands_skip_brace_blocks_and_repeats() {
    let text = "func.func @h() {\n %r = foo.bar %a, %b, %a {attr = %zz} : (index) -> f32\n}\n";
    let f = &parse_module(text).unwrap().functions[0];
    let op = &f.operations[0];
    assert_eq!(op.op_type, "foo.bar");
    assert_eq!(op.operands, vec!["%a".to_string(), "%b".to_string()]);
    assert_eq!(op.result_type.as_deref(), Some("f32"));
    assert_eq!(op.result.as_deref(), Some("%r"));
}

#[test]
fn comments_are_stripped_and_infix_ops_parse() {
    let text = "// header\nfunc.func @k(%a: index, %b: index) { // body\n %s = %a - %b : index // diff\n %p = %a * %b\n}\n";
    let f = &parse_module(text).unwrap().functions[0];
    assert_eq!(f.operations.len(), 2);
    assert_eq!(f.operations[0].op_type, "arith.subi");
    assert_eq!(f.operations[0].operands, vec!["%a".to_string(), "%b".to_string()]);
    assert_eq!(f.operations[0].result_type.as_deref(), Some("index"));
    assert_eq!(f.operations[1].op_type, "arith.muli");
    assert_eq!(f.operations[1].result_type, None);
}

/// The element-wise vector add kernel `add_kernel`: each of 32 cores adds one
/// 128-element block of two 4096-element `f16` vectors.
const VECTOR_ADD: &str = r#"
module {
  func.func @add_kernel(%x_ptr: index, %y_ptr: index, %output_ptr: index, %BLOCK_SIZE: index) attributes {grid = [32]} {
    %core_id = ktdp.get_compute_tile_id : index
    %offset = %core_id * %BLOCK_SIZE : index
    %x_view = ktdp.construct_memory_view %x_ptr, sizes: [4096], strides: [1] {
      coordinate_set = affine_set<(d0) : (d0 >= 0, -d0 + 4095 >= 0)>, memory_space = #ktdp.spyre_memory_space<HBM>
    } : memref<4096xf16>
    %y_view = ktdp.construct_memory_view %y_ptr, sizes: [4096], strides: [1] {
      coordinate_set = affine_set<(d0) : (d0 >= 0, -d0 + 4095 >= 0)>, memory_space = #ktdp.spyre_memory_space<HBM>
    } : memref<4096xf16>
    %output_view = ktdp.construct_memory_view %output_ptr, sizes: [4096], strides: [1] {
      coordinate_set = affine_set<(d0) : (d0 >= 0, -d0 + 4095 >= 0)>, memory_space = #ktdp.spyre_memory_space<HBM>
    } : memref<4096xf16>
    %x_tile = ktdp.construct_access_tile %x_view[%offset] {
      access_tile_set = affine_set<(d0) : (d0 >= 0, -d0 + 127 >= 0)>, access_tile_order = affine_map<(d0) -> (d0)>
    } : memref<4096xf16> -> !ktdp.access_tile<128xindex>
    %y_tile = ktdp.construct_access_tile %y_view[%offset] {
      access_tile_set = affine_set<(d0) : (d0 >= 0, -d0 + 127 >= 0)>, access_tile_order = affine_map<(d0) -> (d0)>
    } : memref<4096xf16> -> !ktdp.access_tile<128xindex>
    %x = ktdp.load %x_tile : !ktdp.access_tile<128xindex> -> tensor<128xf16>
    %y = ktdp.load %y_tile : !ktdp.access_tile<128xindex> -> tensor<128xf16>
    %output = arith.addf %x, %y : tensor<128xf16>
    %output_tile = ktdp.construct_access_tile %output_view[%offset] {
      access_tile_set = affine_set<(d0) : (d0 >= 0, -d0 + 127 >= 0)>, access_tile_order = affine_map<(d0) -> (d0)>
    } : memref<4096xf16> -> !ktdp.access_tile<128xindex>
    ktdp.store %output, %output_tile : tensor<128xf16>, !ktdp.access_tile<128xindex>
    return
  }
}
"#;

#[test]
fn parses_real_vector_add_structurally() {
    let module = parse_module(VECTOR_ADD).unwrap();
    let f = module.get_function("add_kernel").unwrap();
    assert_eq!(f.grid, (32, 1, 1));
    assert_eq!(f.arg_names(), vec!["x_ptr", "y_ptr", "output_ptr", "BLOCK_SIZE"]);

    // The multi-line construct ops must each tokenize to exactly one op.
    let types: Vec<&str> = f.operations.iter().map(|o| o.op_type.as_str()).collect();
    assert_eq!(types.iter().filter(|t| **t == "ktdp.construct_memory_view").count(), 3);
    assert_eq!(types.iter().filter(|t| **t == "ktdp.construct_access_tile").count(), 3);
    assert_eq!(types.iter().filter(|t| **t == "ktdp.load").count(), 2);
    assert_eq!(types.iter().filter(|t| **t == "ktdp.store").count(), 1);
    assert!(types.contains(&"arith.addf"));
    assert_eq!(types.last(), Some(&"return"));

    // Operand/type wiring on a representative multi-line op.
    let view = f.operations.iter().find(|o| o.result.as_deref() == Some("%x_view")).unwrap();
    assert_eq!(view.operands, vec!["%x_ptr"]);
    assert_eq!(view.result_type.as_deref(), Some("memref<4096xf16>"));

    let at = f.operations.iter().find(|o| o.result.as_deref() == Some("%x_tile")).unwrap();
    assert_eq!(at.operands, vec!["%x_view", "%offset"]);
    assert_eq!(at.result_type.as_deref(), Some("!ktdp.access_tile<128xindex>"));
}

#[test]
fn infix_index_arith_lowers_to_arith_op() {
    let module = parse_module(VECTOR_ADD).unwrap();
    let f = module.get_function("add_kernel").unwrap();
    let off = f.operations.iter().find(|o| o.result.as_deref() == Some("%offset")).unwrap();
    // `arith.muli %core_id, %BLOCK_SIZE : index`
    assert_eq!(off.op_type, "arith.muli");
    assert_eq!(off.operands, vec!["%core_id", "%BLOCK_SIZE"]);
}
