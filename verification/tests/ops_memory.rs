use lib::dtypes::DType;
use lib::env::FloatArith;
use lib::interpreter::single_core_context;
use lib::ir::Tile;
use lib::memory::STICK_BYTES;
use lib::ops_memory::{
    decode, encode, flat_memory_offsets, is_contiguous, load_data, ndindex, store_data, MemorySpace, TileRef,
};

/// Host conversions of the memory path, as the emulator's host provides them.
struct Host;

impl FloatArith for Host {
    fn addf(&self, a: u32, b: u32) -> u32 {
        (f32::from_bits(a) + f32::from_bits(b)).to_bits()
    }
    fn mulf(&self, a: u32, b: u32) -> u32 {
        (f32::from_bits(a) * f32::from_bits(b)).to_bits()
    }
    fn subf(&self, a: u32, b: u32) -> u32 {
        (f32::from_bits(a) - f32::from_bits(b)).to_bits()
    }
    fn ltf(&self, a: u32, b: u32) -> bool {
        f32::from_bits(a) < f32::from_bits(b)
    }
    fn int_to_f32(&self, x: i64) -> u32 {
        (x as f32).to_bits()
    }
    fn parse_f32(&self, lit: &str) -> Option<u32> {
        lit.parse::<f64>().ok().map(|x| (x as f32).to_bits())
    }
    fn widen_f16(&self, h: u16) -> u32 {
        let sign = ((h & 0x8000) as u32) << 16;
        let exp = ((h >> 10) & 0x1f) as u32;
        let mant = (h & 0x03ff) as u32;
        if exp == 0 {
            if mant == 0 {
                sign
            } else {
                let mut e = -1i32;
                let mut m = mant;
                while m & 0x0400 == 0 {
                    m <<= 1;
                    e -= 1;
                }
                m &= 0x03ff;
                let f32_exp = (e + 127 - 15 + 1) as u32;
                sign | (f32_exp << 23) | (m << 13)
            }
        } else if exp == 0x1f {
            sign | 0x7f80_0000 | (mant << 13)
        } else {
            sign | ((exp + 127 - 15) << 23) | (mant << 13)
        }
    }
    fn round_to_i64(&self, x: u32) -> i64 {
        f32::from_bits(x).round() as i64
    }
    fn round_to_dtype(&self, x: u32, _dtype: DType) -> u32 {
        x
    }
}

fn bits(v: &[f32]) -> Vec<u32> {
    v.iter().map(|x| x.to_bits()).collect()
}

fn floats(v: &[u32]) -> Vec<f32> {
    v.iter().map(|x| f32::from_bits(*x)).collect()
}

fn tile_ref(space: MemorySpace, base_ptr: i64, shape: Vec<usize>, strides: Vec<i64>, dtype: DType) -> TileRef {
    TileRef { space, base_ptr, shape, strides, dtype }
}

#[test]
fn contiguity_check() {
    assert!(is_contiguous(&[4, 4], &[4, 1]));
    assert!(is_contiguous(&[4], &[1]));
    assert!(!is_contiguous(&[4], &[4])); // strided column
    assert!(!is_contiguous(&[2, 3], &[1, 2]));
}

#[test]
fn flat_offsets_full_shape_rowmajor() {
    let (offsets, sticks) = flat_memory_offsets(0, &[2, 2], &[2, 1], DType::F32, None, None);
    assert_eq!(offsets, vec![0, 1, 2, 3]);
    assert_eq!(sticks, None);
}

#[test]
fn flat_offsets_strided_column_counts_sticks() {
    // f16 column of a 4x4 matrix: base byte 4, strides [4], shape [4].
    // offsets 0,4,8,12 -> byte addrs 4,12,20,28 all in stick 0.
    let (offsets, sticks) = flat_memory_offsets(4, &[4], &[4], DType::F16, None, Some(STICK_BYTES));
    assert_eq!(offsets, vec![0, 4, 8, 12]);
    assert_eq!(sticks, Some(1));
}

#[test]
fn ndindex_scalar_shape_emits_one_point() {
    assert_eq!(ndindex(&[]).len(), 1);
    // Empty axis -> no points.
    assert_eq!(ndindex(&[0, 3]).len(), 0);
}

#[test]
fn ndindex_is_row_major() {
    assert_eq!(ndindex(&[2, 3]), vec![vec![0, 0], vec![0, 1], vec![0, 2], vec![1, 0], vec![1, 1], vec![1, 2]]);
}

#[test]
fn explicit_coords_span_two_sticks() {
    // f32 elements at offsets 0 and 40: bytes 0 and 160 -> sticks 0 and 1.
    let coords = vec![vec![0i64], vec![40i64]];
    let (offsets, sticks) = flat_memory_offsets(0, &[2], &[1], DType::F32, Some(&coords), Some(STICK_BYTES));
    assert_eq!(offsets, vec![0, 40]);
    assert_eq!(sticks, Some(2));
}

#[test]
fn encode_decode_roundtrip_per_dtype() {
    for dt in [DType::F32, DType::I32, DType::I64, DType::F16] {
        let data = bits(&[1.0, 2.0, 3.0, 4.0]);
        let raw = encode(&data, dt, &Host);
        assert_eq!(raw.len(), 4 * dt.bytes_per_elem());
        let back = decode(&raw, dt, 4, &Host);
        assert_eq!(floats(&back), vec![1.0, 2.0, 3.0, 4.0], "round trip dtype {dt:?}");
    }
}

#[test]
fn ops_memory_decode_zero_pads_short_input() {
    // Only 4 bytes available but 2 f32 elements requested -> second is 0.
    let raw = 7.0f32.to_le_bytes().to_vec();
    assert_eq!(floats(&decode(&raw, DType::F32, 2, &Host)), vec![7.0, 0.0]);
}

#[test]
fn integer_encodings_are_twos_complement_and_round_half_away() {
    let raw = encode(&bits(&[-1.0, 2.5, -2.5]), DType::I32, &Host);
    assert_eq!(raw, vec![255, 255, 255, 255, 3, 0, 0, 0, 253, 255, 255, 255]);
    let raw = encode(&bits(&[-3.0, 1e30]), DType::I32, &Host);
    assert_eq!(&raw[0..4], &(-3i32).to_le_bytes());
    assert_eq!(&raw[4..8], &i32::MAX.to_le_bytes());
    let raw = encode(&bits(&[-2.0]), DType::I64, &Host);
    assert_eq!(raw, (-2i64).to_le_bytes().to_vec());
    assert_eq!(floats(&decode(&raw, DType::I64, 1, &Host)), vec![-2.0]);
    assert_eq!(encode(&bits(&[0.0, -0.0, 3.0, f32::NAN]), DType::Bool, &Host), vec![0, 0, 1, 1]);
    assert_eq!(floats(&decode(&[0, 7], DType::Bool, 2, &Host)), vec![0.0, 1.0]);
}

#[test]
fn load_contiguous_hbm_decodes_f32() {
    let mut ctx = single_core_context();
    // Allocate a 4-element f32 region in HBM.
    let stick = ctx.mem.hbm.allocate(4 * 4);
    let byte_addr = stick * STICK_BYTES;
    let payload: Vec<u8> = [1.0f32, 2.0, 3.0, 4.0].iter().flat_map(|x| x.to_le_bytes()).collect();
    ctx.mem.hbm.write_bytes(byte_addr, &payload);

    let tr = tile_ref(MemorySpace::Hbm, byte_addr, vec![4], vec![1], DType::F32);
    let tile = load_data(&mut ctx, &tr, None, None, &Host).unwrap();
    assert_eq!(floats(&tile.data), vec![1.0, 2.0, 3.0, 4.0]);
    assert_eq!(tile.shape, vec![4]);
    // 16 bytes from a stick boundary -> exactly 1 stick.
    assert_eq!(tile.unique_sticks, Some(1));
}

#[test]
fn load_lx_decodes_f16() {
    let mut ctx = single_core_context();
    let raw: Vec<u8> = [1.0f32, 2.0, 4.0].iter().flat_map(|x| lib::ops_memory::narrow_f16_bits(x.to_bits()).to_le_bytes()).collect();
    ctx.mem.lx_scratchpads[0].write_bytes(0, &raw);

    let tr = tile_ref(MemorySpace::Lx { core_id: None }, 0, vec![3], vec![1], DType::F16);
    let tile = load_data(&mut ctx, &tr, None, None, &Host).unwrap();
    assert_eq!(floats(&tile.data), vec![1.0, 2.0, 4.0]);
    assert_eq!(tile.unique_sticks, None); // LX: no sticks
}

#[test]
fn load_with_coords_gathers() {
    let mut ctx = single_core_context();
    // 4x4 f32 matrix values 0..15 in HBM.
    let stick = ctx.mem.hbm.allocate(16 * 4);
    let byte_addr = stick * STICK_BYTES;
    let payload: Vec<u8> = (0..16).flat_map(|i| (i as f32).to_le_bytes()).collect();
    ctx.mem.hbm.write_bytes(byte_addr, &payload);

    let tr = tile_ref(MemorySpace::Hbm, byte_addr, vec![4, 4], vec![4, 1], DType::F32);
    // Gather the diagonal: (0,0),(1,1),(2,2),(3,3) -> 0,5,10,15.
    let coords = vec![vec![0, 0], vec![1, 1], vec![2, 2], vec![3, 3]];
    let tile = load_data(&mut ctx, &tr, Some(&coords), Some(vec![4]), &Host).unwrap();
    assert_eq!(floats(&tile.data), vec![0.0, 5.0, 10.0, 15.0]);
}

#[test]
fn store_contiguous_hbm_roundtrips() {
    let mut ctx = single_core_context();
    let stick = ctx.mem.hbm.allocate(4 * 4);
    let tr = tile_ref(MemorySpace::Hbm, stick * STICK_BYTES, vec![4], vec![1], DType::F32);

    let tile = Tile::compute(bits(&[10.0, 20.0, 30.0, 40.0]), DType::F32, vec![4], &Host);
    let sticks = store_data(&mut ctx, &tile, &tr, None, &Host).unwrap();
    assert_eq!(sticks, 1);

    let back = load_data(&mut ctx, &tr, None, None, &Host).unwrap();
    assert_eq!(floats(&back.data), vec![10.0, 20.0, 30.0, 40.0]);
}

#[test]
fn store_lx_returns_zero_sticks() {
    let mut ctx = single_core_context();
    let tr = tile_ref(MemorySpace::Lx { core_id: None }, 256, vec![3], vec![1], DType::F32);
    let tile = Tile::compute(bits(&[1.0, 2.0, 3.0]), DType::F32, vec![3], &Host);
    let sticks = store_data(&mut ctx, &tile, &tr, None, &Host).unwrap();
    assert_eq!(sticks, 0);
    let back = load_data(&mut ctx, &tr, None, None, &Host).unwrap();
    assert_eq!(floats(&back.data), vec![1.0, 2.0, 3.0]);
}

#[test]
fn store_with_coords_scatters_rmw() {
    let mut ctx = single_core_context();
    // Pre-fill a 4-element f32 LX region with zeros, then scatter into
    // offsets 0 and 2 via coords on a [2] logical tile with stride [2].
    let tr = tile_ref(MemorySpace::Lx { core_id: None }, 512, vec![2], vec![2], DType::F32);
    ctx.mem.lx_scratchpads[0].write_bytes(512, &[0u8; 16]); // 4 f32 zeros
    let tile = Tile::compute(bits(&[7.0, 9.0]), DType::F32, vec![2], &Host);
    // coords (0) and (1) over strides [2] -> flat offsets 0 and 2.
    let coords = vec![vec![0], vec![1]];
    store_data(&mut ctx, &tile, &tr, Some(&coords), &Host).unwrap();

    let raw = ctx.mem.lx_scratchpads[0].read_bytes(512, 16);
    let vals = decode(&raw, DType::F32, 4, &Host);
    assert_eq!(floats(&vals), vec![7.0, 0.0, 9.0, 0.0]);
}

#[test]
fn loads_land_in_lx_at_stick_aligned_offsets() {
    let mut ctx = single_core_context();
    let stick = ctx.mem.hbm.allocate(12);
    let byte_addr = stick * STICK_BYTES;
    ctx.mem.hbm.write_bytes(byte_addr, &[0, 0, 128, 63, 0, 0, 0, 64, 0, 0, 64, 64]);
    let tr = tile_ref(MemorySpace::Hbm, byte_addr, vec![3], vec![1], DType::F32);
    load_data(&mut ctx, &tr, None, None, &Host).unwrap();
    assert_eq!(ctx.mem.lx_scratchpads[0].next_ptr, 128);
    load_data(&mut ctx, &tr, None, None, &Host).unwrap();
    assert_eq!(ctx.mem.lx_scratchpads[0].next_ptr, 256);
    let copy = ctx.mem.lx_scratchpads[0].read_bytes(128, 12);
    assert_eq!(floats(&decode(&copy, DType::F32, 3, &Host)), vec![1.0, 2.0, 3.0]);
}

#[test]
fn scatter_with_repeated_offset_keeps_the_last_write() {
    let mut ctx = single_core_context();
    let stick = ctx.mem.hbm.allocate(8);
    let byte_addr = stick * STICK_BYTES;
    let tr = tile_ref(MemorySpace::Hbm, byte_addr, vec![2], vec![1], DType::F32);
    let tile = Tile::compute(bits(&[5.0, 6.0]), DType::F32, vec![2], &Host);
    let coords = vec![vec![1], vec![1]];
    let sticks = store_data(&mut ctx, &tile, &tr, Some(&coords), &Host).unwrap();
    assert_eq!(sticks, 1);
    let raw = ctx.mem.hbm.read_bytes(byte_addr, 8);
    assert_eq!(floats(&decode(&raw, DType::F32, 2, &Host)), vec![0.0, 6.0]);
}

#[test]
fn gather_after_scatter_at_the_same_points_returns_the_tile() {
    let mut ctx = single_core_context();
    let stick = ctx.mem.hbm.allocate(64);
    let tr = tile_ref(MemorySpace::Hbm, stick * STICK_BYTES, vec![4, 4], vec![4, 1], DType::F32);
    let coords = vec![vec![3, 1], vec![0, 2], vec![2, 2]];
    let tile = Tile::compute(bits(&[1.5, -2.0, 8.25]), DType::F32, vec![3], &Host);
    store_data(&mut ctx, &tile, &tr, Some(&coords), &Host).unwrap();
    let back = load_data(&mut ctx, &tr, Some(&coords), Some(vec![3]), &Host).unwrap();
    assert_eq!(floats(&back.data), vec![1.5, -2.0, 8.25]);
    assert_eq!(back.shape, vec![3]);
}

#[test]
fn store_then_load_roundtrips_integer_and_half_tiles() {
    for (dt, vals) in [
        (DType::I32, vec![1.0f32, -2.0, 300.0, -4.0]),
        (DType::I64, vec![5.0, -6.0, 70000.0, 0.0]),
        (DType::F16, vec![0.5, 1.5, -2.0, 1024.0]),
    ] {
        let mut ctx = single_core_context();
        let stick = ctx.mem.hbm.allocate(4 * 8);
        let tr = tile_ref(MemorySpace::Hbm, stick * STICK_BYTES, vec![4], vec![1], dt);
        let tile = Tile { data: bits(&vals), dtype: dt, shape: vec![4], unique_sticks: None, index_unique_sticks: None };
        store_data(&mut ctx, &tile, &tr, None, &Host).unwrap();
        let back = load_data(&mut ctx, &tr, None, None, &Host).unwrap();
        assert_eq!(floats(&back.data), vals);
        assert_eq!(back.dtype, dt);
    }
}

#[test]
fn memory_path_narrowing_to_half_precision() {
    assert_eq!(lib::ops_memory::narrow_f16_bits(1.0f32.to_bits()), 0x3c00);
    assert_eq!(lib::ops_memory::narrow_f16_bits((-2.0f32).to_bits()), 0xc000);
    assert_eq!(lib::ops_memory::narrow_f16_bits(65504.0f32.to_bits()), 0x7bff);
    assert_eq!(lib::ops_memory::narrow_f16_bits(1.0e6f32.to_bits()), 0x7c00);
    assert_eq!(lib::ops_memory::narrow_f16_bits(f32::INFINITY.to_bits()), 0x7c00);
    assert_eq!(lib::ops_memory::narrow_f16_bits(f32::NAN.to_bits()), 0x7e00);
    assert_eq!(lib::ops_memory::narrow_f16_bits(1.0e-10f32.to_bits()), 0x0000);
    // smallest half subnormal, 2^-24
    assert_eq!(lib::ops_memory::narrow_f16_bits(5.960_464_5e-8f32.to_bits()), 0x0001);
    // 1 + 2^-11 is a tie: it stays on the even pattern
    assert_eq!(lib::ops_memory::narrow_f16_bits(1.000_488_3f32.to_bits()), 0x3c00);
    // 1 + 3 * 2^-11 is a tie above an odd pattern: it rounds up
    assert_eq!(lib::ops_memory::narrow_f16_bits(1.001_464_8f32.to_bits()), 0x3c02);
}

#[test]
fn per_op_rounding_to_half_precision() {
    assert_eq!(lib::ops_memory::f32_to_f16_bits(1.0f32.to_bits()), 0x3c00);
    assert_eq!(lib::ops_memory::f32_to_f16_bits(0.5f32.to_bits()), 0x3800);
    assert_eq!(lib::ops_memory::f32_to_f16_bits(65504.0f32.to_bits()), 0x7bff);
    assert_eq!(lib::ops_memory::f32_to_f16_bits(70000.0f32.to_bits()), 0x7c00);
    assert_eq!(lib::ops_memory::f32_to_f16_bits(f32::NAN.to_bits()), 0x7e00);
    assert_eq!(lib::ops_memory::f32_to_f16_bits(5.960_464_5e-8f32.to_bits()), 0x0001);
    assert_eq!(lib::ops_memory::f32_to_f16_bits(1.000_488_3f32.to_bits()), 0x3c00);
    assert_eq!(lib::ops_memory::f32_to_f16_bits(1.001_464_8f32.to_bits()), 0x3c02);
}
