use power_meter::ieee::{round, Format, Unpacked};
use power_meter::single::Single;

fn next(state: &mut u64) -> u32 {
    *state = state.wrapping_mul(6364136223846793005).wrapping_add(1442695040888963407);
    (*state >> 32) as u32
}

fn same(got: u32, want: f32) -> bool {
    if want.is_nan() {
        f32::from_bits(got).is_nan()
    } else {
        got == want.to_bits()
    }
}

fn interesting(state: &mut u64) -> u32 {
    let r = next(state);
    match r % 8 {
        0 => next(state) & 0x807f_ffff,
        1 => (next(state) & 0x807f_ffff) | 0x7f00_0000,
        2 => (next(state) & 0x80ff_ffff) | 0x3f00_0000,
        3 => [0u32, 0x8000_0000, 0x7f80_0000, 0xff80_0000, 0x7fc0_0000, 1, 0x7f7f_ffff, 0x0080_0000][(next(state) % 8) as usize],
        _ => next(state),
    }
}

#[test]
fn product_matches_hardware() {
    let mut state: u64 = 1;
    for _ in 0..200000 {
        let a = interesting(&mut state);
        let b = interesting(&mut state);
        let got = Single::from_bits(a).mul(Single::from_bits(b)).to_bits();
        let want = f32::from_bits(a) * f32::from_bits(b);
        assert!(same(got, want), "{:08x} * {:08x}: got {:08x}, want {:08x}", a, b, got, want.to_bits());
    }
}

#[test]
fn quotient_matches_hardware() {
    let mut state: u64 = 2;
    for _ in 0..200000 {
        let a = interesting(&mut state);
        let b = interesting(&mut state);
        let got = Single::from_bits(a).div(Single::from_bits(b)).to_bits();
        let want = f32::from_bits(a) / f32::from_bits(b);
        assert!(same(got, want), "{:08x} / {:08x}: got {:08x}, want {:08x}", a, b, got, want.to_bits());
    }
}

fn near(state: &mut u64, a: u32) -> u32 {
    match next(state) % 4 {
        0 => a ^ 0x8000_0000,
        1 => a.wrapping_add(next(state) % 0x0400_0000),
        2 => a.wrapping_sub(next(state) % 0x0400_0000) ^ ((next(state) & 1) << 31),
        _ => interesting(state),
    }
}

#[test]
fn sum_matches_hardware() {
    let mut state: u64 = 3;
    for _ in 0..200000 {
        let a = interesting(&mut state);
        let b = near(&mut state, a);
        let got = Single::from_bits(a).add(Single::from_bits(b)).to_bits();
        let want = f32::from_bits(a) + f32::from_bits(b);
        assert!(same(got, want), "{:08x} + {:08x}: got {:08x}, want {:08x}", a, b, got, want.to_bits());
    }
}

#[test]
fn difference_matches_hardware() {
    let mut state: u64 = 4;
    for _ in 0..200000 {
        let a = interesting(&mut state);
        let b = near(&mut state, a);
        let got = Single::from_bits(a).sub(Single::from_bits(b)).to_bits();
        let want = f32::from_bits(a) - f32::from_bits(b);
        assert!(same(got, want), "{:08x} - {:08x}: got {:08x}, want {:08x}", a, b, got, want.to_bits());
    }
}

#[test]
fn order_matches_hardware() {
    let mut state: u64 = 5;
    for _ in 0..200000 {
        let a = interesting(&mut state);
        let b = near(&mut state, a);
        let (x, y) = (Single::from_bits(a), Single::from_bits(b));
        let (fx, fy) = (f32::from_bits(a), f32::from_bits(b));
        assert_eq!(x.lt(y), fx < fy, "{:08x} < {:08x}", a, b);
        assert_eq!(x.le(y), fx <= fy, "{:08x} <= {:08x}", a, b);
        assert_eq!(x.gt(y), fx > fy, "{:08x} > {:08x}", a, b);
        assert_eq!(x.ge(y), fx >= fy, "{:08x} >= {:08x}", a, b);
        assert_eq!(x.is_finite(), fx.is_finite());
        assert_eq!(x.is_nan(), fx.is_nan());
    }
}

#[test]
fn from_u64_matches_hardware() {
    let mut state: u64 = 6;
    for _ in 0..200000 {
        let hi = next(&mut state) as u64;
        let lo = next(&mut state) as u64;
        let n = ((hi << 32) | lo) >> (next(&mut state) % 64);
        assert_eq!(Single::from_u64(n).to_bits(), (n as f32).to_bits(), "{}", n);
    }
    for n in [0u64, 1, 2, 16777215, 16777216, 16777217, 16777218, 16777219, u64::MAX, u64::MAX - 1] {
        assert_eq!(Single::from_u64(n).to_bits(), (n as f32).to_bits(), "{}", n);
    }
}

#[test]
fn to_u8_matches_hardware() {
    let mut state: u64 = 7;
    for _ in 0..200000 {
        let a = interesting(&mut state);
        assert_eq!(Single::from_bits(a).to_u8(), f32::from_bits(a) as u8, "{:08x}", a);
    }
    for k in 0..2600 {
        let x = k as f32 / 10.0 - 2.0;
        assert_eq!(Single::from_bits(x.to_bits()).to_u8(), x as u8, "{}", x);
    }
}

#[test]
fn root_matches_libm() {
    let mut state: u64 = 8;
    for _ in 0..200000 {
        let a = interesting(&mut state);
        let got = Single::from_bits(a).sqrt().to_bits();
        let want = libm::sqrtf(f32::from_bits(a));
        assert!(same(got, want), "sqrt {:08x}: got {:08x}, want {:08x}", a, got, want.to_bits());
        assert!(same(got, f32::from_bits(a).sqrt()));
    }
    for k in 0..100000u32 {
        let x = k as f32;
        assert_eq!(Single::from_bits(x.to_bits()).sqrt().to_bits(), libm::sqrtf(x).to_bits(), "{}", x);
    }
}

#[test]
fn sign_operations_match_hardware() {
    let mut state: u64 = 9;
    for _ in 0..100000 {
        let a = interesting(&mut state);
        let x = f32::from_bits(a);
        assert_eq!(Single::from_bits(a).abs().to_bits(), x.abs().to_bits());
        assert_eq!(Single::from_bits(a).neg().to_bits(), (-x).to_bits());
    }
    assert_eq!(Single::zero().to_bits(), 0.0f32.to_bits());
    assert_eq!(Single::infinity().to_bits(), f32::INFINITY.to_bits());
    assert_eq!(Single::neg_infinity().to_bits(), f32::NEG_INFINITY.to_bits());
}

#[test]
fn rounding_keeps_to_the_nearest() {
    let bits = |a: u128, b: u64, e: i32| Single::pack(round(Format::Single, false, a, b, e)).to_bits();
    assert_eq!(bits(1, 3, 0), (1.0f32 / 3.0).to_bits());
    assert_eq!(bits(2, 3, 0), (2.0f32 / 3.0).to_bits());
    assert_eq!(bits(16777217, 1, 0), 16777216.0f32.to_bits());
    assert_eq!(bits(16777219, 1, 0), 16777220.0f32.to_bits());
    assert_eq!(bits(16777218, 1, 0), 16777218.0f32.to_bits());
    assert_eq!(bits(1, 1, 128), f32::INFINITY.to_bits());
    assert_eq!(bits(0xff_ffff, 1, 104), f32::MAX.to_bits());
    assert_eq!(bits(0x1ff_ffff, 1, 103), f32::INFINITY.to_bits());
    assert_eq!(bits(0, 7, 5), 0);
    assert!(matches!(round(Format::Single, true, 0, 7, 5), Unpacked::Fin { neg: true, mant: 0, exp: -149 }));
}

#[test]
fn rounding_below_one_unit() {
    let bits = |a: u128, e: i32| Single::pack(round(Format::Single, false, a, 1, e)).to_bits();
    assert_eq!(bits(1, -149), 1);
    assert_eq!(bits(1, -150), 0);
    assert_eq!(bits(3, -151), 1);
    assert_eq!(bits(3, -150), 2);
    assert_eq!(bits(1, -151), 0);
    assert_eq!(bits(u128::MAX, -277), 1);
    assert_eq!(bits(1 << 127, -277), 0);
    assert_eq!(bits((1 << 127) + 1, -277), 1);
    assert_eq!(bits(u128::MAX, -278), 0);
    assert_eq!(bits(u128::MAX, -276), 2);
    assert_eq!(bits(3 << 126, -276), 2);
    assert_eq!(bits(5 << 125, -276), 1);
    assert_eq!(bits(u128::MAX, -1000000), 0);
    let wide = |a: u128, b: u64, e: i32| round(Format::Double, false, a, b, e);
    assert!(matches!(wide(u128::MAX, 1, -1202), Unpacked::Fin { neg: false, mant: 1, exp: -1074 }));
    assert!(matches!(wide(1 << 127, 1, -1202), Unpacked::Fin { neg: false, mant: 0, exp: -1074 }));
    assert!(matches!(wide(u128::MAX, u64::MAX, -1138), Unpacked::Fin { neg: false, mant: 1, exp: -1074 }));
    assert!(matches!(wide(u128::MAX, u64::MAX, -1139), Unpacked::Fin { neg: false, mant: 1, exp: -1074 }));
    assert!(matches!(wide(u128::MAX - u64::MAX as u128, u64::MAX, -1139), Unpacked::Fin { neg: false, mant: 0, exp: -1074 }));
    assert!(matches!(wide(u128::MAX - u64::MAX as u128 + 1, u64::MAX, -1139), Unpacked::Fin { neg: false, mant: 1, exp: -1074 }));
    assert!(matches!(wide(u128::MAX, u64::MAX, -1140), Unpacked::Fin { neg: false, mant: 0, exp: -1074 }));
}
