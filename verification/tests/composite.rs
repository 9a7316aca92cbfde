use image::imageops::{crop_imm, overlay, resize, FilterType};
use matting::cli::Fit;
use matting::composite::{
    is_drawable, over_color, over_image, place, scaled_size, to_bgra, Background, Picture,
};
use matting::single::Single;

fn singles(values: &[f32]) -> Vec<Single> {
    values.iter().map(|v| Single::from_bits(v.to_bits())).collect()
}

// One pixel, fully opaque red foreground.
fn red_fg() -> (Vec<Single>, usize) {
    (singles(&[1.0, 0.0, 0.0]), 1)
}

#[test]
fn alpha_mode_writes_bgra_with_alpha() {
    let (fgr, plane) = red_fg();
    let mut out = vec![0u8; 4];
    to_bgra(&fgr, &singles(&[1.0]), plane, false, &mut out);
    assert_eq!(out, vec![0, 0, 255, 255], "expected B,G,R,A");

    to_bgra(&fgr, &singles(&[0.0]), plane, false, &mut out);
    assert_eq!(out[3], 0, "transparent pixel must have alpha 0");
}

/// RVM leaves garbage in `fgr` where alpha is zero. Premultiplying must
/// force those pixels to black so a premultiplied compositor (OBS) does not
/// draw the garbage over the background.
#[test]
fn premultiplying_blacks_out_transparent_garbage() {
    let garbage = singles(&[0.9f32, 0.4, 0.7]);
    let mut out = vec![0u8; 4];
    to_bgra(&garbage, &singles(&[0.0]), 1, true, &mut out);
    assert_eq!(out, vec![0, 0, 0, 0], "transparent pixels must be fully black");

    // Straight alpha keeps the garbage, which is what OBS was showing.
    to_bgra(&garbage, &singles(&[0.0]), 1, false, &mut out);
    assert_ne!(&out[..3], &[0, 0, 0], "straight alpha should preserve colour");
}

#[test]
fn premultiplying_scales_partial_alpha() {
    let fgr = singles(&[1.0f32, 1.0, 1.0]);
    let mut out = vec![0u8; 4];
    to_bgra(&fgr, &singles(&[0.5]), 1, true, &mut out);
    assert!((out[0] as i32 - 128).abs() <= 1, "b={}", out[0]);
    assert_eq!(out[3], 128, "alpha itself must not be scaled");
}

#[test]
fn greenscreen_shows_key_colour_where_transparent() {
    let (fgr, plane) = red_fg();
    let mut out = vec![0u8; 3];
    over_color(&fgr, &singles(&[0.0]), plane, [0, 255, 0], &mut out);
    assert_eq!(out, vec![0, 255, 0], "fully transparent should be pure key");

    over_color(&fgr, &singles(&[1.0]), plane, [0, 255, 0], &mut out);
    assert_eq!(out, vec![255, 0, 0], "fully opaque should be pure foreground");
}

#[test]
fn greenscreen_blends_at_half_alpha() {
    let (fgr, plane) = red_fg();
    let mut out = vec![0u8; 3];
    over_color(&fgr, &singles(&[0.5]), plane, [0, 255, 0], &mut out);
    assert!((out[0] as i32 - 128).abs() <= 1, "r={}", out[0]);
    assert!((out[1] as i32 - 128).abs() <= 1, "g={}", out[1]);
    assert_eq!(out[2], 0);
}

#[test]
fn image_mode_shows_background_where_transparent() {
    let (fgr, plane) = red_fg();
    let bg = [10u8, 20, 30];
    let mut out = vec![0u8; 3];
    over_image(&fgr, &singles(&[0.0]), plane, &bg, &mut out);
    assert_eq!(out, vec![10, 20, 30]);

    over_image(&fgr, &singles(&[1.0]), plane, &bg, &mut out);
    assert_eq!(out, vec![255, 0, 0]);
}

fn plain(width: u32, height: u32, colour: [u8; 3]) -> Picture {
    let count = (width * height) as usize;
    Picture { width, height, rgb: colour.repeat(count) }
}

#[test]
fn cover_fit_matches_target_dimensions() {
    let bg = Background::load(&plain(64, 64, [1, 2, 3]), 1024, 576, Fit::Cover);
    assert_eq!(bg.rgb().len(), 1024 * 576 * 3);
}

#[test]
fn contain_fit_matches_target_dimensions() {
    let bg = Background::load(&plain(64, 32, [4, 5, 6]), 1024, 576, Fit::Contain);
    assert_eq!(bg.rgb().len(), 1024 * 576 * 3);
}

#[test]
fn black_out_holds_for_any_garbage() {
    let garbage = singles(&[f32::NAN, f32::INFINITY, -1.0e30]);
    for alpha in [0.0f32, -0.0] {
        let mut out = vec![7u8; 4];
        to_bgra(&garbage, &singles(&[alpha]), 1, true, &mut out);
        assert_eq!(out, vec![0, 0, 0, 0]);
    }
}

#[test]
fn every_background_byte_shows_unchanged() {
    let fgr = singles(&[0.3, -12.0, 5.0e20]);
    for byte in 0..=255u8 {
        let bg = [byte, 255 - byte, byte ^ 0x55];
        let mut out = vec![0u8; 3];
        over_image(&fgr, &singles(&[0.0]), 1, &bg, &mut out);
        assert_eq!(out, bg);
        over_color(&fgr, &singles(&[-0.0]), 1, bg, &mut out);
        assert_eq!(out, bg);
    }
}

#[test]
fn opaque_pixels_hide_the_background() {
    for value in [0.0f32, 0.25, 0.5, 0.999, 1.0, 1.5, -0.2] {
        let fgr = singles(&[value, value, value]);
        let want = (value * 255.0).round().clamp(0.0, 255.0) as u8;
        let mut out = vec![0u8; 3];
        over_color(&fgr, &singles(&[1.0]), 1, [10, 200, 30], &mut out);
        assert_eq!(out, vec![want; 3]);
        let mut bgra = vec![0u8; 4];
        to_bgra(&fgr, &singles(&[1.0]), 1, true, &mut bgra);
        assert_eq!(bgra, vec![want, want, want, 255]);
    }
}

#[test]
fn blending_agrees_with_the_machine() {
    let levels: Vec<f32> = (0..=40).map(|i| i as f32 / 37.0 - 0.03).collect();
    for &f in &levels {
        for &a in &levels {
            for byte in [0u8, 1, 77, 128, 254, 255] {
                let want = ((f * a + (byte as f32 / 255.0) * (1.0 - a)) * 255.0)
                    .round()
                    .clamp(0.0, 255.0) as u8;
                let mut out = vec![0u8; 3];
                over_color(&singles(&[f; 3]), &singles(&[a]), 1, [byte; 3], &mut out);
                assert_eq!(out, vec![want; 3], "{f} {a} {byte}");
            }
        }
    }
}

#[test]
fn scaled_sizes() {
    let (wide, target) = ((64, 32), (1024, 576));
    assert_eq!(scaled_size(wide, target, Fit::Stretch), (1024, 576));
    assert_eq!(scaled_size(wide, target, Fit::Cover), (1152, 576));
    assert_eq!(scaled_size(wide, target, Fit::Contain), (1024, 512));
    assert_eq!(scaled_size((64, 64), target, Fit::Cover), (1024, 1024));
    // A long thin picture still has one pixel.
    assert_eq!(scaled_size((100_000, 1), (10, 10), Fit::Contain), (10, 1));
}

#[test]
fn scaled_sizes_agree_with_the_machine() {
    let sides = [1u32, 2, 3, 7, 99, 576, 577, 1000, 1024, 1920, 4001, 65_537, 1_048_576];
    for &w in &sides {
        for &h in &sides {
            for target in [(1024u32, 576u32), (3, 1000), (1, 1), (1_048_576, 7)] {
                let cover = (target.0 as f32 / w as f32).max(target.1 as f32 / h as f32);
                let want = ((w as f32 * cover).ceil() as u32, (h as f32 * cover).ceil() as u32);
                let got = scaled_size((w, h), target, Fit::Cover);
                assert_eq!(got, want);
                assert!(got.0 >= target.0 && got.1 >= target.1);
                let contain = (target.0 as f32 / w as f32).min(target.1 as f32 / h as f32);
                let want = (
                    ((w as f32 * contain) as u32).max(1),
                    ((h as f32 * contain) as u32).max(1),
                );
                let got = scaled_size((w, h), target, Fit::Contain);
                assert_eq!(got, want);
                assert!(got.0 <= target.0 && got.1 <= target.1);
            }
        }
    }
}

#[test]
fn what_cannot_be_drawn_is_known() {
    assert!(is_drawable((64, 64), (1024, 576), Fit::Cover));
    assert!(is_drawable((64, 64), (1024, 576), Fit::Contain));
    assert!(is_drawable((64, 64), (0, 0), Fit::Stretch));
    assert!(!is_drawable((64, 64), (0, 576), Fit::Contain));
    assert!(!is_drawable((0, 64), (1024, 576), Fit::Cover));
    // Shrinking copes with longer sides than growing does.
    assert!(is_drawable((2_000_000, 1), (1024, 576), Fit::Stretch));
    assert!(!is_drawable((20_000_000, 1), (1024, 576), Fit::Stretch));
    assert!(!is_drawable((2_000_000, 1), (2_000_001, 576), Fit::Stretch));
    assert!(!is_drawable((2_000_000, 1), (1, 1), Fit::Stretch));
    // What keeps its size is not resampled, however long it is.
    assert!(is_drawable((2_000_000, 1), (2_000_000, 1), Fit::Stretch));
    assert!(is_drawable((2_000_000, 1), (2_000_000, 1), Fit::Cover));
    assert!(is_drawable((0, 64), (4, 3), Fit::Stretch));
}

#[test]
fn one_colour_stays_that_colour() {
    for (w, h) in [(1, 1), (2, 3), (640, 7), (4096, 5), (3, 4096), (6000, 400), (99_999, 2)] {
        for colour in [[0, 1, 255], [254, 128, 77]] {
            for (tw, th) in [(1, 1), (16, 9), (100, 3), (7, 500)] {
                if w > 4096 && w > 1000 * tw {
                    continue;
                }
                let bg = Background::load(&plain(w, h, colour), tw, th, Fit::Stretch);
                assert!(bg.rgb().chunks(3).all(|p| p == colour), "{w}x{h} {tw}x{th}");
            }
        }
    }
}

#[test]
fn one_colour_stays_about_that_colour_however_many_pixels_are_averaged() {
    for (w, h, tw) in [(1_048_576, 1, 1), (1_048_576, 1, 3), (3_000_000, 1, 16), (12_000_000, 1, 64)] {
        for level in [0u8, 1, 2, 77, 200, 255] {
            let bg = Background::load(&plain(w, h, [level; 3]), tw, 1, Fit::Stretch);
            for &got in bg.rgb() {
                let off = (got as i32 - level as i32).abs();
                assert!(2 * off <= level as i32 + 1, "{w} to {tw}: {level} became {got}");
            }
        }
    }
}

#[test]
fn a_level_stays_where_it_is_the_same_all_around() {
    // Red on the left, blue on the right.
    let (w, h) = (300u32, 40u32);
    let rgb: Vec<u8> = (0..w * h)
        .flat_map(|p| if p % w < w / 2 { [200, 9, 0] } else { [3, 9, 250] })
        .collect();
    let picture = Picture { width: w, height: h, rgb };
    for (tw, th) in [(90u32, 11u32), (700, 90), (300, 60), (50, 400)] {
        let bg = Background::load(&picture, tw, th, Fit::Stretch);
        let reach = 2.0 * (w.max(tw) as f64) / tw as f64 + 2.0;
        for (p, pixel) in bg.rgb().chunks(3).enumerate() {
            let middle = (p as u32 % tw) as f64 + 0.5;
            let under = middle * w as f64 / tw as f64;
            if under + reach < 150.0 {
                assert_eq!(pixel, [200, 9, 0], "{tw}x{th} {p}");
            } else if under - reach > 150.0 {
                assert_eq!(pixel, [3, 9, 250], "{tw}x{th} {p}");
            }
            assert_eq!(pixel[1], 9);
        }
    }
}

#[test]
fn a_picture_without_pixels_is_black() {
    let nothing = Picture { width: 0, height: 64, rgb: Vec::new() };
    assert_eq!(Background::load(&nothing, 4, 3, Fit::Stretch).rgb(), &[0; 36]);
}

#[test]
fn scaled_pictures_are_placed() {
    // Three by two pixels, numbered.
    let scaled: Vec<u8> = (0..18).collect();
    assert_eq!(place(scaled.clone(), (3, 2), (3, 2), Fit::Stretch), scaled);
    assert_eq!(place(scaled.clone(), (3, 2), (1, 1), Fit::Cover), [3, 4, 5]);
    assert_eq!(
        place(scaled.clone(), (3, 2), (2, 2), Fit::Cover),
        [0, 1, 2, 3, 4, 5, 9, 10, 11, 12, 13, 14]
    );
    let inset = place(scaled.clone(), (3, 2), (5, 2), Fit::Contain);
    assert_eq!(inset[..3], [0, 0, 0]);
    assert_eq!(inset[3..12], scaled[..9]);
    assert_eq!(inset[12..18], [0; 6]);
    assert_eq!(inset[18..27], scaled[9..]);
    assert_eq!(inset[27..], [0, 0, 0]);
}

#[test]
fn premultiplying_only_darkens() {
    let levels: Vec<f32> = (0..=50).map(|i| i as f32 / 50.0).collect();
    for &f in &levels {
        for &a in &levels {
            let (fgr, pha) = (singles(&[f; 3]), singles(&[a]));
            let mut dark = vec![0u8; 4];
            to_bgra(&fgr, &pha, 1, true, &mut dark);
            let mut straight = vec![0u8; 4];
            to_bgra(&fgr, &pha, 1, false, &mut straight);
            assert!(dark[0] <= dark[3] && dark[0] <= straight[0], "{f} {a}");
        }
    }
}

/// A picture in which every pixel is different.
fn gradient(width: u32, height: u32) -> Picture {
    let rgb = (0..width * height * 3).map(|i| (i * 37 % 251) as u8).collect();
    Picture { width, height, rgb }
}

#[test]
fn a_picture_of_the_right_size_is_kept() {
    let picture = gradient(8, 6);
    for fit in [Fit::Cover, Fit::Stretch, Fit::Contain] {
        let bg = Background::load(&picture, 8, 6, fit);
        assert_eq!(bg.rgb(), &picture.rgb[..], "{fit:?}");
    }
}

/// The same steps, all of them taken by `image`.
fn drawn_by_image(picture: &Picture, width: u32, height: u32, fit: Fit) -> Vec<u8> {
    let source =
        image::RgbImage::from_raw(picture.width, picture.height, picture.rgb.clone()).unwrap();
    let (sw, sh) = scaled_size((picture.width, picture.height), (width, height), fit);
    let scaled = resize(&source, sw, sh, FilterType::CatmullRom);
    match fit {
        Fit::Stretch => scaled.into_raw(),
        Fit::Cover => crop_imm(&scaled, (sw - width) / 2, (sh - height) / 2, width, height)
            .to_image()
            .into_raw(),
        Fit::Contain => {
            let mut canvas = image::RgbImage::from_pixel(width, height, image::Rgb([0, 0, 0]));
            let (x, y) = ((width - sw) / 2, (height - sh) / 2);
            overlay(&mut canvas, &scaled, x as i64, y as i64);
            canvas.into_raw()
        }
    }
}

#[test]
fn pictures_are_resampled_cut_and_centred() {
    for (w, h) in [(8, 6), (5, 11), (31, 3), (1, 1)] {
        let picture = gradient(w, h);
        for (tw, th) in [(16, 9), (7, 7), (3, 20)] {
            for fit in [Fit::Cover, Fit::Stretch, Fit::Contain] {
                let bg = Background::load(&picture, tw, th, fit);
                let want = drawn_by_image(&picture, tw, th, fit);
                assert_eq!(bg.rgb(), &want[..], "{w}x{h} -> {tw}x{th} {fit:?}");
            }
        }
    }
}

#[test]
fn contained_pictures_have_black_bars() {
    let bg = Background::load(&plain(4, 2, [9, 9, 9]), 8, 8, Fit::Contain);
    let row = 8 * 3;
    assert!(bg.rgb()[..2 * row].iter().all(|&b| b == 0));
    assert!(bg.rgb()[2 * row..6 * row].iter().all(|&b| b == 9));
    assert!(bg.rgb()[6 * row..].iter().all(|&b| b == 0));
}
