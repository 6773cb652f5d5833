use fuzzy_logic::truth::Truth;

fn truth(x: f32) -> Truth {
    Truth::from_bits(x.to_bits())
}

fn same(got: Truth, want: f32) -> bool {
    if want.is_nan() {
        got.is_nan()
    } else {
        got.to_bits() == want.to_bits()
    }
}

fn next(state: &mut u64) -> u32 {
    *state = state.wrapping_mul(6364136223846793005).wrapping_add(1442695040888963407);
    (*state >> 32) as u32
}

fn samples() -> Vec<u32> {
    let mut out: Vec<u32> = vec![
        0x0000_0000, 0x8000_0000, 0x0000_0001, 0x8000_0001, 0x0000_0002, 0x007f_ffff,
        0x0080_0000, 0x0080_0001, 0x00ff_ffff, 0x0100_0000, 0x3f80_0000, 0xbf80_0000,
        0x3f7f_ffff, 0x3f80_0001, 0x4000_0000, 0x3f00_0000, 0x3e80_0000, 0x3eaa_aaab,
        0x3e99_999a, 0x3f33_3333, 0x7f7f_ffff, 0xff7f_ffff, 0x7f00_0000, 0x7f80_0000,
        0xff80_0000, 0x7fc0_0000, 0xffc0_0000, 0x7f80_0001, 0x4b00_0000, 0x4b80_0000,
        0x4b7f_ffff, 0x3380_0000, 0x3400_0000, 0x3300_0000, 0x5f80_0000, 0x1f80_0000,
        0x2000_0000, 0x6000_0000, 0x0040_0000, 0x8040_0000, 0x3f80_0002, 0x3fc0_0000,
    ];
    let mut state: u64 = 0x1234_5678_9abc_def0;
    let mut i: u32 = 0;
    while i < 60 {
        out.push(next(&mut state));
        i += 1;
    }
    out
}

#[test]
fn plus_agrees_with_hardware_on_sample_grid() {
    let s = samples();
    for &x in s.iter() {
        for &y in s.iter() {
            let want = f32::from_bits(x) + f32::from_bits(y);
            let got = Truth::from_bits(x).plus(Truth::from_bits(y));
            assert!(same(got, want), "{:08x} + {:08x}: got {:08x}, want {:08x}", x, y, got.to_bits(), want.to_bits());
        }
    }
}

#[test]
fn minus_agrees_with_hardware_on_sample_grid() {
    let s = samples();
    for &x in s.iter() {
        for &y in s.iter() {
            let want = f32::from_bits(x) - f32::from_bits(y);
            let got = Truth::from_bits(x).minus(Truth::from_bits(y));
            assert!(same(got, want), "{:08x} - {:08x}: got {:08x}, want {:08x}", x, y, got.to_bits(), want.to_bits());
        }
    }
}

#[test]
fn times_agrees_with_hardware_on_sample_grid() {
    let s = samples();
    for &x in s.iter() {
        for &y in s.iter() {
            let want = f32::from_bits(x) * f32::from_bits(y);
            let got = Truth::from_bits(x).times(Truth::from_bits(y));
            assert!(same(got, want), "{:08x} * {:08x}: got {:08x}, want {:08x}", x, y, got.to_bits(), want.to_bits());
        }
    }
}

#[test]
fn over_agrees_with_hardware_on_sample_grid() {
    let s = samples();
    for &x in s.iter() {
        for &y in s.iter() {
            let want = f32::from_bits(x) / f32::from_bits(y);
            let got = Truth::from_bits(x).over(Truth::from_bits(y));
            assert!(same(got, want), "{:08x} / {:08x}: got {:08x}, want {:08x}", x, y, got.to_bits(), want.to_bits());
        }
    }
}

#[test]
fn plus_agrees_with_hardware_on_random_bits() {
    let mut state: u64 = 1;
    let mut i: u32 = 0;
    while i < 200_000 {
        let x = next(&mut state);
        let y = next(&mut state);
        let want = f32::from_bits(x) + f32::from_bits(y);
        let got = Truth::from_bits(x).plus(Truth::from_bits(y));
        assert!(same(got, want), "{:08x} + {:08x}", x, y);
        i += 1;
    }
}

#[test]
fn plus_agrees_with_hardware_on_near_exponents() {
    let mut state: u64 = 2;
    let mut i: u32 = 0;
    while i < 200_000 {
        let x = next(&mut state);
        let shift = next(&mut state) % 64;
        let ex = (x >> 23) & 0xff;
        let ey = if ex >= shift { ex - shift + 0 } else { ex };
        let y = (next(&mut state) & 0x807f_ffff) | (ey << 23);
        let want = f32::from_bits(x) + f32::from_bits(y);
        let got = Truth::from_bits(x).plus(Truth::from_bits(y));
        assert!(same(got, want), "{:08x} + {:08x}", x, y);
        let want = f32::from_bits(y) - f32::from_bits(x);
        let got = Truth::from_bits(y).minus(Truth::from_bits(x));
        assert!(same(got, want), "{:08x} - {:08x}", y, x);
        i += 1;
    }
}

#[test]
fn times_agrees_with_hardware_on_random_bits() {
    let mut state: u64 = 3;
    let mut i: u32 = 0;
    while i < 200_000 {
        let x = next(&mut state);
        let y = next(&mut state);
        let want = f32::from_bits(x) * f32::from_bits(y);
        let got = Truth::from_bits(x).times(Truth::from_bits(y));
        assert!(same(got, want), "{:08x} * {:08x}", x, y);
        i += 1;
    }
}

#[test]
fn times_agrees_with_hardware_near_the_subnormal_range() {
    let mut state: u64 = 4;
    let mut i: u32 = 0;
    while i < 200_000 {
        let x = next(&mut state);
        let ex = (x >> 23) & 0xff;
        let spread = next(&mut state) % 40;
        let ey = (127 + 20 + 255 - ex - spread) % 255;
        let y = (next(&mut state) & 0x807f_ffff) | (ey << 23);
        let want = f32::from_bits(x) * f32::from_bits(y);
        let got = Truth::from_bits(x).times(Truth::from_bits(y));
        assert!(same(got, want), "{:08x} * {:08x}", x, y);
        i += 1;
    }
}

#[test]
fn over_agrees_with_hardware_on_random_bits() {
    let mut state: u64 = 5;
    let mut i: u32 = 0;
    while i < 200_000 {
        let x = next(&mut state);
        let y = next(&mut state);
        let want = f32::from_bits(x) / f32::from_bits(y);
        let got = Truth::from_bits(x).over(Truth::from_bits(y));
        assert!(same(got, want), "{:08x} / {:08x}", x, y);
        i += 1;
    }
}

#[test]
fn over_agrees_with_hardware_near_the_subnormal_range() {
    let mut state: u64 = 6;
    let mut i: u32 = 0;
    while i < 200_000 {
        let x = next(&mut state);
        let ex = (x >> 23) & 0xff;
        let spread = next(&mut state) % 40;
        let ey = (ex + 127 + 20 - spread) % 255;
        let y = (next(&mut state) & 0x807f_ffff) | (ey << 23);
        let want = f32::from_bits(x) / f32::from_bits(y);
        let got = Truth::from_bits(x).over(Truth::from_bits(y));
        assert!(same(got, want), "{:08x} / {:08x}", x, y);
        i += 1;
    }
}

#[test]
fn ties_round_to_the_even_significand() {
    // 1 + 2^-24 lies halfway between 1 and the next number up
    assert_eq!(truth(1.0).plus(Truth::from_bits(0x3380_0000)).to_bits(), 0x3f80_0000);
    // 1 + 2^-23 + 2^-24 lies halfway between two numbers, the upper one even
    assert_eq!(Truth::from_bits(0x3f80_0001).plus(Truth::from_bits(0x3380_0000)).to_bits(), 0x3f80_0002);
    // the smallest subnormal halved is a tie between zero and itself
    assert_eq!(Truth::from_bits(1).times(truth(0.5)).to_bits(), 0);
    assert_eq!(Truth::from_bits(3).times(truth(0.5)).to_bits(), 2);
}

#[test]
fn overflow_gives_infinity() {
    assert_eq!(truth(f32::MAX).plus(truth(f32::MAX)).to_bits(), 0x7f80_0000);
    assert_eq!(truth(f32::MAX).times(truth(-2.0)).to_bits(), 0xff80_0000);
    assert_eq!(truth(f32::MAX).over(truth(0.5)).to_bits(), 0x7f80_0000);
    // just below half a unit above the greatest number: stays finite
    assert_eq!(truth(f32::MAX).plus(Truth::from_bits(0x7300_0000 - 1)).to_bits(), 0x7f7f_ffff);
    assert_eq!(truth(f32::MAX).plus(Truth::from_bits(0x7300_0000)).to_bits(), 0x7f80_0000);
}

#[test]
fn zeros_keep_their_signs() {
    assert_eq!(truth(0.0).plus(truth(-0.0)).to_bits(), 0);
    assert_eq!(truth(-0.0).plus(truth(-0.0)).to_bits(), 0x8000_0000);
    assert_eq!(truth(1.5).minus(truth(1.5)).to_bits(), 0);
    assert_eq!(truth(-0.0).times(truth(3.0)).to_bits(), 0x8000_0000);
    assert_eq!(truth(0.0).over(truth(-3.0)).to_bits(), 0x8000_0000);
    assert!(truth(0.0).over(truth(0.0)).is_nan());
    assert_eq!(truth(1.0).over(truth(-0.0)).to_bits(), 0xff80_0000);
    assert!(truth(f32::INFINITY).times(truth(0.0)).is_nan());
    assert!(truth(f32::INFINITY).minus(truth(f32::INFINITY)).is_nan());
    assert!(truth(f32::INFINITY).over(truth(f32::NEG_INFINITY)).is_nan());
    assert_eq!(truth(5.0).over(truth(f32::NEG_INFINITY)).to_bits(), 0x8000_0000);
}

#[test]
fn classification_matches_hardware_on_sample_grid() {
    for &x in samples().iter() {
        let v = f32::from_bits(x);
        let t = Truth::from_bits(x);
        assert_eq!(t.is_nan(), v.is_nan());
        assert_eq!(t.is_infinite(), v.is_infinite());
        assert_eq!(t.is_finite(), v.is_finite());
        assert_eq!(t.is_sign_negative(), v.is_sign_negative());
        assert_eq!(t.is_zero(), v == 0.0);
        assert_eq!(t.negated().to_bits(), (-v).to_bits());
        assert_eq!(t.to_bits(), x);
    }
    assert_eq!(Truth::one().to_bits(), 1.0f32.to_bits());
    assert_eq!(Truth::two().to_bits(), 2.0f32.to_bits());
    assert_eq!(Truth::zero(false).to_bits(), 0.0f32.to_bits());
    assert_eq!(Truth::zero(true).to_bits(), (-0.0f32).to_bits());
    assert_eq!(Truth::infinity(false).to_bits(), f32::INFINITY.to_bits());
    assert_eq!(Truth::infinity(true).to_bits(), f32::NEG_INFINITY.to_bits());
    assert!(Truth::nan().is_nan());
}

#[test]
fn gt_agrees_with_hardware_on_sample_grid() {
    let s = samples();
    for &x in s.iter() {
        for &y in s.iter() {
            let want = f32::from_bits(x) > f32::from_bits(y);
            assert_eq!(Truth::from_bits(x).gt(Truth::from_bits(y)), want, "{:08x} > {:08x}", x, y);
        }
    }
}
