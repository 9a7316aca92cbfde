use matting::cli::{parse_color, Backbone, Fit, Mode, PrepareArgs, RunArgs};
use matting::single::Single;

#[test]
fn defaults_to_alpha_mode_and_resnet50() {
    let args = RunArgs::default();
    assert_eq!(args.mode, Mode::Alpha);
    assert_eq!(args.model, Backbone::Resnet50);
    assert_eq!(args.input, "/dev/video0");
}

#[test]
fn parses_hex_color() {
    assert_eq!(parse_color("#00FF00").unwrap(), [0, 255, 0]);
    assert_eq!(parse_color("00ff00").unwrap(), [0, 255, 0]);
}

#[test]
fn parses_triplet_color() {
    assert_eq!(parse_color("0,255,0").unwrap(), [0, 255, 0]);
}

#[test]
fn rejects_malformed_color() {
    assert!(parse_color("#GGGGGG").is_err());
    assert!(parse_color("1,2").is_err());
    assert!(parse_color("300,0,0").is_err());
}

#[test]
fn image_mode_requires_image_path() {
    let args = RunArgs { mode: Mode::Image, ..RunArgs::default() };
    assert!(args.validate().is_err(), "image mode without --image must fail");
}

#[test]
fn remaining_defaults() {
    let args = RunArgs::default();
    assert_eq!(args.output, "/dev/video9");
    assert_eq!(args.color, "#00FF00");
    assert_eq!(args.image, None);
    assert_eq!(args.fit, Fit::Cover);
    assert!(args.validate().is_ok());
}

#[test]
fn validation_says_what_is_wrong() {
    let args = RunArgs { mode: Mode::Image, ..RunArgs::default() };
    assert_eq!(args.validate(), Err("--mode image requires --image <path>".to_string()));
    let args = RunArgs {
        mode: Mode::Image,
        image: Some("bg.png".to_string()),
        ..RunArgs::default()
    };
    assert_eq!(args.validate(), Ok(()));
    let args = RunArgs { color: "green".to_string(), ..RunArgs::default() };
    assert_eq!(args.validate(), Err("expected 6 hex digits but got \"green\"".to_string()));
}

#[test]
fn colour_errors_quote_the_text() {
    let message = |s: &str| parse_color(s).unwrap_err();
    assert_eq!(message(" 1,2 "), "expected r,g,b but got \"1,2\"");
    assert_eq!(message("1,2,3,4"), "expected r,g,b but got \"1,2,3,4\"");
    assert_eq!(message("1, x ,3"), "invalid colour component \" x \" in \"1, x ,3\"");
    assert_eq!(message("1,2,300"), "invalid colour component \"300\" in \"1,2,300\"");
    assert_eq!(message(",,"), "invalid colour component \"\" in \",,\"");
    assert_eq!(message("#12345"), "expected 6 hex digits but got \"#12345\"");
    assert_eq!(message("##12345"), "invalid hex colour \"##12345\"");
    assert_eq!(message("1234-5"), "invalid hex colour \"1234-5\"");
    assert_eq!(message("a\"b"), "expected 6 hex digits but got \"a\\\"b\"");
}

#[test]
fn odd_spellings_are_read_as_numbers_are() {
    assert_eq!(parse_color("\u{2003}+7 , 007,\t255\n"), Ok([7, 7, 255]));
    // A pair of hexadecimal digits is two digits, and no sign.
    assert_eq!(parse_color("#+1+2+3"), Err("invalid hex colour \"#+1+2+3\"".to_string()));
    assert!(parse_color("+f+F0a").is_err());
    assert!(parse_color("-1,0,0").is_err());
    assert!(parse_color("+,0,0").is_err());
    assert!(parse_color("1e1,0,0").is_err());
}

#[test]
fn every_sampled_colour_reads_back() {
    for r in (0..=255u8).step_by(17) {
        for g in (0..=255u8).step_by(51) {
            for b in (0..=255u8).step_by(5) {
                let want = Ok([r, g, b]);
                assert_eq!(parse_color(&format!("#{r:02x}{g:02x}{b:02x}")), want);
                assert_eq!(parse_color(&format!("{r:02X}{g:02X}{b:02X}")), want);
                assert_eq!(parse_color(&format!("{r},{g},{b}")), want);
            }
        }
    }
}

#[test]
fn text_beyond_ascii_is_no_colour() {
    // However many bytes it takes, and wherever a cut would go.
    for text in ["é1234", "1é234", "12é34", "aéaaa", "#121é2", "zz1é2", "ééé", "é", "１"] {
        let error = parse_color(text).unwrap_err();
        let digits = text.trim_start_matches('#');
        let want = if digits.len() == 6 { "invalid hex colour" } else { "expected 6 hex digits" };
        assert!(error.starts_with(want), "{error}");
        assert!(error.ends_with(&format!("{text:?}")), "{error}");
    }
    assert_eq!(
        parse_color("1,é,3"),
        Err("invalid colour component \"é\" in \"1,é,3\"".to_string())
    );
    let args = RunArgs { color: "aéaaa".to_string(), ..RunArgs::default() };
    assert_eq!(args.validate(), Err("invalid hex colour \"aéaaa\"".to_string()));
}

#[test]
fn backbones() {
    assert_eq!(Backbone::Mobilenetv3.expected_channels(), [16, 20, 40, 64]);
    assert_eq!(Backbone::Resnet50.expected_channels(), [16, 32, 64, 128]);
    assert_eq!(Backbone::Resnet50.recorded_name(), "resnet50");
    assert_eq!(Backbone::Mobilenetv3.recorded_name(), "mobilenetv3");
    assert_eq!(Backbone::Resnet50.shown_name(), format!("{:?}", Backbone::Resnet50));
    assert_eq!(Backbone::Mobilenetv3.shown_name(), format!("{:?}", Backbone::Mobilenetv3));
    for mode in [Mode::Alpha, Mode::Greenscreen, Mode::Image] {
        assert_eq!(mode.shown_name(), format!("{mode:?}"));
    }
}

#[test]
fn prepare_arguments_hold_a_ratio() {
    let args = PrepareArgs {
        from: "rvm.onnx".to_string(),
        model: Backbone::Resnet50,
        width: 1024,
        height: 576,
        ratio: Single::from_bits(0.5f32.to_bits()),
    };
    assert_eq!(args.ratio, Single::from_u32(1).over(Single::from_u32(2)));
}
