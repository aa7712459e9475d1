use collada_converter::ieee::{i32_to_single, single_to_i32};

fn samples() -> Vec<u32> {
    let mut v = vec![0u32, 1, 2, 0x7f, 0xff, 0x7fff_ffff, 0x8000_0000, 0x8000_0001, 0xffff_ffff];
    let mut x: u64 = 0x2545_f491_4f6c_dd1d;
    for _ in 0..200_000 {
        x = x.wrapping_mul(6364136223846793005).wrapping_add(1442695040888963407);
        v.push((x >> 32) as u32);
    }
    for e in 0..32u32 {
        let p = 1u64 << e;
        for d in [-3i64, -2, -1, 0, 1, 2, 3] {
            let a = (p as i64 + d) as u64 as u32;
            v.push(a);
            v.push(a.wrapping_neg());
        }
    }
    v
}

#[test]
fn integers_convert_to_nearest_single() {
    for b in samples() {
        let n = b as i32;
        assert_eq!(i32_to_single(n), (n as f32).to_bits(), "{}", n);
    }
    assert_eq!(i32_to_single(i32::MIN), (i32::MIN as f32).to_bits());
    assert_eq!(i32_to_single(i32::MAX), (i32::MAX as f32).to_bits());
    assert_eq!(i32_to_single(16_777_217), 16_777_216f32.to_bits());
    assert_eq!(i32_to_single(16_777_219), 16_777_220f32.to_bits());
}

#[test]
fn singles_convert_to_integers_toward_zero() {
    for b in samples() {
        assert_eq!(single_to_i32(b), f32::from_bits(b) as i32, "{:#x}", b);
    }
    for f in [0.0f32, -0.0, 0.5, -0.5, 1.0, -1.999, 2.5, 1e10, -1e10, 2147483520.0, -2147483648.0, f32::INFINITY, f32::NEG_INFINITY, f32::NAN, f32::MIN_POSITIVE, 1e-45] {
        assert_eq!(single_to_i32(f.to_bits()), f as i32, "{}", f);
    }
}
