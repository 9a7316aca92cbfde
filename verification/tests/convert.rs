use matting::convert::{clamp_u8, rgb_to_yuv, rgb_to_yuyv, yuv_to_rgb, yuyv_to_rgb_f32_nchw};
use matting::single::Single;

fn value(s: Single) -> f32 {
    f32::from_bits(s.to_bits())
}

fn zeros(n: usize) -> Vec<Single> {
    vec![Single::from_bits(0); n]
}

#[test]
fn grey_round_trips() {
    // Mid grey: equal RGB should map to neutral chroma and back.
    let [y, u, v] = rgb_to_yuv(128, 128, 128);
    let [r, g, b] = yuv_to_rgb(y, u, v);
    assert!((r as i32 - 128).abs() <= 2, "r={r}");
    assert!((g as i32 - 128).abs() <= 2, "g={g}");
    assert!((b as i32 - 128).abs() <= 2, "b={b}");
}

#[test]
fn primaries_round_trip_within_tolerance() {
    for colour in [
        [255u8, 0, 0],
        [0, 255, 0],
        [0, 0, 255],
        [0, 0, 0],
        [255, 255, 255],
    ] {
        let [y, u, v] = rgb_to_yuv(colour[0], colour[1], colour[2]);
        let got = yuv_to_rgb(y, u, v);
        for i in 0..3 {
            assert!(
                (got[i] as i32 - colour[i] as i32).abs() <= 4,
                "{colour:?} -> {got:?} channel {i}"
            );
        }
    }
}

#[test]
fn yuyv_to_nchw_is_planar_and_normalized() {
    // 2x1 image, one YUYV macropixel of white.
    let [y, u, v] = rgb_to_yuv(255, 255, 255);
    let yuyv = [y, u, y, v];
    let mut out = zeros(3 * 2);
    yuyv_to_rgb_f32_nchw(&yuyv, 2, 1, &mut out);
    for single in &out {
        let value = value(*single);
        assert!(value > 0.95, "expected near 1.0, got {value}");
        assert!(value <= 1.0, "must be normalized, got {value}");
    }
}

#[test]
fn rgb_to_yuyv_round_trips_through_nchw() {
    let width = 4;
    let height = 2;
    let rgb: Vec<u8> = (0..width * height * 3).map(|i| (i * 7 % 256) as u8).collect();
    let mut yuyv = vec![0u8; width * height * 2];
    rgb_to_yuyv(&rgb, width, height, &mut yuyv);
    let mut back = zeros(3 * width * height);
    yuyv_to_rgb_f32_nchw(&yuyv, width, height, &mut back);
    // 4:2:2 discards half the chroma, so only luma is tightly preserved.
    for p in 0..width * height {
        let orig_y = rgb_to_yuv(rgb[p * 3], rgb[p * 3 + 1], rgb[p * 3 + 2])[0];
        let r = (value(back[p]) * 255.0) as i32;
        let g = (value(back[width * height + p]) * 255.0) as i32;
        let b = (value(back[2 * width * height + p]) * 255.0) as i32;
        let got_y = rgb_to_yuv(
            r.clamp(0, 255) as u8,
            g.clamp(0, 255) as u8,
            b.clamp(0, 255) as u8,
        )[0];
        assert!((orig_y as i32 - got_y as i32).abs() <= 6, "luma drift at {p}");
    }
}

/// The conversion, as the machine computes it.
fn machine_rgb(y: u8, u: u8, v: u8) -> [u8; 3] {
    let y = (y as f32 - 16.0) * 1.164_383;
    let u = u as f32 - 128.0;
    let v = v as f32 - 128.0;
    let byte = |x: f32| x.round().clamp(0.0, 255.0) as u8;
    [
        byte(y + 1.596_027 * v),
        byte(y - 0.391_762 * u - 0.812_968 * v),
        byte(y + 2.017_232 * u),
    ]
}

fn machine_yuv(r: u8, g: u8, b: u8) -> [u8; 3] {
    let (r, g, b) = (r as f32, g as f32, b as f32);
    let byte = |x: f32| x.round().clamp(0.0, 255.0) as u8;
    [
        byte(0.256_788 * r + 0.504_129 * g + 0.097_906 * b + 16.0),
        byte(-0.148_223 * r - 0.290_993 * g + 0.439_216 * b + 128.0),
        byte(0.439_216 * r - 0.367_788 * g - 0.071_427 * b + 128.0),
    ]
}

#[test]
fn samples_agree_with_the_machine() {
    for a in (0..=255u8).step_by(15) {
        for b in (0..=255u8).step_by(15) {
            for c in (0..=255u8).step_by(5) {
                assert_eq!(yuv_to_rgb(a, b, c), machine_rgb(a, b, c), "{a} {b} {c}");
                assert_eq!(rgb_to_yuv(a, b, c), machine_yuv(a, b, c), "{a} {b} {c}");
            }
        }
    }
}

#[test]
fn known_samples() {
    assert_eq!(rgb_to_yuv(0, 0, 0), [16, 128, 128]);
    assert_eq!(rgb_to_yuv(255, 255, 255), [235, 128, 128]);
    assert_eq!(rgb_to_yuv(255, 0, 0), [81, 90, 240]);
    assert_eq!(yuv_to_rgb(16, 128, 128), [0, 0, 0]);
    assert_eq!(yuv_to_rgb(235, 128, 128), [255, 255, 255]);
    assert_eq!(yuv_to_rgb(0, 0, 0), [0, 136, 0]);
}

#[test]
fn every_sampled_colour_comes_back_within_two() {
    for r in (0..=255u8).step_by(15) {
        for g in (0..=255u8).step_by(15) {
            for b in (0..=255u8).step_by(15) {
                let [y, u, v] = rgb_to_yuv(r, g, b);
                let back = yuv_to_rgb(y, u, v);
                for (got, want) in back.iter().zip([r, g, b]) {
                    assert!((*got as i32 - want as i32).abs() <= 2, "{r} {g} {b} -> {back:?}");
                }
            }
        }
    }
}

#[test]
fn normalized_bytes_read_back() {
    for byte in 0..=255u32 {
        let n = Single::from_u32(byte).over(Single::from_u32(255));
        assert_eq!(n.to_bits(), (byte as f32 / 255.0).to_bits());
        assert!(value(n) <= 1.0);
        assert_eq!(clamp_u8(n.times(Single::from_u32(255))) as u32, byte);
    }
}

#[test]
fn odd_columns_are_left_alone() {
    let yuyv: Vec<u8> = (0..3 * 2 * 2).map(|i| (i * 11) as u8).collect();
    let mark = Single::from_u32(7);
    let mut out = vec![mark; 3 * 6];
    yuyv_to_rgb_f32_nchw(&yuyv, 3, 2, &mut out);
    for c in 0..3 {
        assert_eq!(out[c * 6 + 2], mark);
        assert_eq!(out[c * 6 + 5], mark);
        assert_ne!(out[c * 6], mark);
    }
    // The second row starts at its own pixels, not at a pair of the first row.
    let want = yuv_to_rgb(yuyv[6], yuyv[7], yuyv[9]);
    assert_eq!(value(out[3]), want[0] as f32 / 255.0);

    let rgb: Vec<u8> = (0..18).map(|i| (i * 13) as u8).collect();
    let mut packed = vec![9u8; 12];
    rgb_to_yuyv(&rgb, 3, 2, &mut packed);
    assert_eq!(packed[4..6], [9, 9]);
    assert_eq!(packed[10..12], [9, 9]);
    assert_eq!(packed[6], rgb_to_yuv(rgb[9], rgb[10], rgb[11])[0]);
}

#[test]
fn chroma_is_averaged_over_the_pair() {
    let rgb = [255, 0, 0, 0, 0, 255];
    let mut out = [0u8; 4];
    rgb_to_yuyv(&rgb, 2, 1, &mut out);
    let (a, b) = (rgb_to_yuv(255, 0, 0), rgb_to_yuv(0, 0, 255));
    let average = |x: u8, y: u8| ((x as u16 + y as u16) / 2) as u8;
    assert_eq!(out, [a[0], average(a[1], b[1]), b[0], average(a[2], b[2])]);
}
