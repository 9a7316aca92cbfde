use matting::single::Single;

/// A fixed sequence of patterns that looks random.
fn patterns(count: usize) -> Vec<u32> {
    let mut state: u64 = 0x9e37_79b9_7f4a_7c15;
    let mut out = vec![
        0, 0x8000_0000, 1, 0x8000_0001, 0x007f_ffff, 0x0080_0000, 0x3f80_0000, 0xbf80_0000,
        0x3f00_0000, 0x4b7f_ffff, 0x4b80_0000, 0x7f7f_ffff, 0xff7f_ffff, 0x7f80_0000, 0xff80_0000,
        0x7fc0_0000, 0x7f80_0001, 0x437f_0000, 0x3eff_ffff, 0x3f00_0001,
    ];
    while out.len() < count {
        state = state.wrapping_mul(6364136223846793005).wrapping_add(1442695040888963407);
        let raw = (state >> 32) as u32;
        out.push(raw);
        // Values near one another meet more rounding cases.
        out.push((raw & 0x80ff_ffff) | 0x3f00_0000);
    }
    out
}

fn same(got: Single, want: f32) -> bool {
    if want.is_nan() {
        f32::from_bits(got.to_bits()).is_nan()
    } else {
        got.to_bits() == want.to_bits()
    }
}

#[test]
fn arithmetic_agrees_with_the_machine() {
    let all = patterns(400);
    for &a in &all {
        for &b in &all {
            let (x, y) = (Single::from_bits(a), Single::from_bits(b));
            let (p, q) = (f32::from_bits(a), f32::from_bits(b));
            assert!(same(x.plus(y), p + q), "{a:#x} + {b:#x}");
            assert!(same(x.minus(y), p - q), "{a:#x} - {b:#x}");
            assert!(same(x.times(y), p * q), "{a:#x} * {b:#x}");
            assert!(same(x.over(y), p / q), "{a:#x} / {b:#x}");
            assert_eq!(x.exceeds(y), p > q, "{a:#x} > {b:#x}");
        }
    }
}

#[test]
fn larger_and_smaller_pass_over_nan() {
    let nan = Single::from_bits(0x7fc0_0000);
    let (one, two) = (Single::from_u32(1), Single::from_u32(2));
    assert_eq!(one.larger(two), two);
    assert_eq!(two.larger(one), two);
    assert_eq!(one.smaller(two), one);
    assert_eq!(nan.larger(one), one);
    assert_eq!(one.larger(nan), one);
    assert_eq!(nan.smaller(one), one);
    assert_eq!(one.smaller(nan), one);
}

#[test]
fn conversions_agree_with_the_machine() {
    for &bits in &patterns(4000) {
        let (x, p) = (Single::from_bits(bits), f32::from_bits(bits));
        assert_eq!(x.nearest_byte(), p.round().clamp(0.0, 255.0) as u8, "{bits:#x}");
        assert_eq!(x.floor_word(), p as u32, "{bits:#x}");
        assert_eq!(x.ceil_word(), p.ceil() as u32, "{bits:#x}");
        assert_eq!(x.whole_long(), p as i64, "{bits:#x}");
        assert!(same(x.neg(), -p), "{bits:#x}");
        assert!(same(x.magnitude(), p.abs()), "{bits:#x}");
    }
    for n in [0u32, 1, 2, 255, 0x00ff_ffff, 0x0100_0000, 0x0100_0001, 0x0100_0003, u32::MAX] {
        assert_eq!(Single::from_u32(n).to_bits(), (n as f32).to_bits(), "{n}");
    }
}

#[test]
fn bytes_are_rounded_half_away_from_zero() {
    for (value, byte) in [(0.5f32, 1u8), (1.5, 2), (2.5, 3), (254.5, 255), (255.5, 255), (-0.5, 0)] {
        assert_eq!(Single::from_bits(value.to_bits()).nearest_byte(), byte, "{value}");
    }
    assert_eq!(Single::from_bits(f32::NAN.to_bits()).nearest_byte(), 0);
    assert_eq!(Single::from_bits(f32::INFINITY.to_bits()).nearest_byte(), 255);
    assert_eq!(Single::from_bits(f32::NEG_INFINITY.to_bits()).nearest_byte(), 0);
}

#[test]
fn equality_is_that_of_numbers() {
    let values = [0.0f32, -0.0, 1.0, -1.0, 0.5, f32::INFINITY, f32::NEG_INFINITY, f32::NAN];
    for a in values {
        for b in values {
            let (x, y) = (Single::from_bits(a.to_bits()), Single::from_bits(b.to_bits()));
            assert_eq!(x == y, a == b, "{a} {b}");
        }
    }
}
