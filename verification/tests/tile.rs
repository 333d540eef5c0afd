use lib::dtypes::DType;
use lib::env::FloatArith;
use lib::ir::Tile;

/// Host arithmetic whose dtype rounding handles `f16` in its normal range
/// (round to nearest, ties to even, on the 10-bit mantissa).
struct HalfHost;

fn round_f16_normal(x: f32) -> f32 {
    let bits = x.to_bits();
    let low = bits & 0x1fff;
    let kept = bits & !0x1fff;
    let odd = (kept >> 13) & 1 == 1;
    let up = low > 0x1000 || (low == 0x1000 && odd);
    f32::from_bits(if up { kept + 0x2000 } else { kept })
}

impl FloatArith for HalfHost {
    fn addf(&self, a: u32, b: u32) -> u32 {
        (f32::from_bits(a) + f32::from_bits(b)).to_bits()
    }
    fn mulf(&self, a: u32, b: u32) -> u32 {
        (f32::from_bits(a) * f32::from_bits(b)).to_bits()
    }
    fn subf(&self, a: u32, b: u32) -> u32 {
        (f32::from_bits(a) - f32::from_bits(b)).to_bits()
    }
    fn ltf(&self, a: u32, b: u32) -> bool {
        f32::from_bits(a) < f32::from_bits(b)
    }
    fn int_to_f32(&self, x: i64) -> u32 {
        (x as f32).to_bits()
    }
    fn parse_f32(&self, lit: &str) -> Option<u32> {
        lit.parse::<f64>().ok().map(|x| (x as f32).to_bits())
    }
    fn round_to_dtype(&self, x: u32, dtype: DType) -> u32 {
        match dtype {
            DType::F16 => round_f16_normal(f32::from_bits(x)).to_bits(),
            _ => x,
        }
    }
    fn widen_f16(&self, h: u16) -> u32 {
        let sign = ((h & 0x8000) as u32) << 16;
        let exp = ((h >> 10) & 0x1f) as u32;
        let mant = (h & 0x03ff) as u32;
        if exp == 0 && mant == 0 {
            sign
        } else if exp == 0 {
            (if sign != 0 { -1.0f32 } else { 1.0 } * mant as f32 * 2.0f32.powi(-24)).to_bits()
        } else if exp == 0x1f {
            sign | 0x7f80_0000 | (mant << 13)
        } else {
            sign | ((exp + 127 - 15) << 23) | (mant << 13)
        }
    }
    fn round_to_i64(&self, x: u32) -> i64 {
        f32::from_bits(x).round() as i64
    }
}

#[test]
fn tile_compute_rounds_f16_per_op() {
    // Building an f16 tile stores the f16-rounded value, not the exact f32 input.
    let raw = [0.1f32, 0.2, 0.3];
    let t = Tile::compute(raw.iter().map(|x| x.to_bits()).collect(), DType::F16, vec![3], &HalfHost);
    let got: Vec<f32> = t.data.iter().map(|b| f32::from_bits(*b)).collect();
    assert_eq!(got, vec![0.0999755859375, 0.199951171875, 0.300048828125]);
    // f32 tiles keep exact values, whatever the host's rounding would do.
    let g = Tile::compute(vec![0.1f32.to_bits(), 0.2f32.to_bits()], DType::F32, vec![2], &HalfHost);
    assert_eq!(g.data, vec![0.1f32.to_bits(), 0.2f32.to_bits()]);
    assert_eq!(g.shape, vec![2]);
    assert!(g.unique_sticks.is_none());
}
