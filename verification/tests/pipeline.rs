use matting::capture::{Source, TestSource};
use matting::cli::{Fit, Mode};
use matting::composite::{Background, Picture};
use matting::convert::{rgb_to_yuv, yuv_to_rgb, yuyv_to_rgb_f32_nchw};
use matting::model::{Arch, Element, InputInfo, Matting, Request, States, TensorInfo};
use matting::pipeline::{
    announcement, load_plate, mode_note, plan_plate, plate_from_frame, plate_size, Config,
    Pipeline, PipelineError, PlatePlan,
};
use matting::single::Single;
use matting::sink::{Sink, TestSink};

fn tensor(name: &str) -> InputInfo {
    InputInfo {
        name: name.to_string(),
        tensor: Some(TensorInfo { element: Element::Float32, shape: vec![1, 1, 1, 1] }),
    }
}

fn model(names: &[&str], width: u32, height: u32) -> Matting<u8> {
    let inputs: Vec<InputInfo> = names.iter().map(|n| tensor(n)).collect();
    Matting::load(&inputs, width, height).unwrap()
}

fn rvm(width: u32, height: u32) -> Matting<u8> {
    model(&["src", "r1i", "r2i", "r3i", "r4i"], width, height)
}

fn config(mode: Mode, width: u32, height: u32) -> Config {
    Config {
        mode,
        colour: [0, 255, 0],
        background: None,
        width,
        height,
        premultiplied: true,
    }
}

fn states() -> States<Option<u8>> {
    States { r1: Some(1), r2: Some(2), r3: Some(3), r4: Some(4) }
}

fn single(value: f32) -> Single {
    Single::from_bits(value.to_bits())
}

/// Runs a frame through a network that shows it as it is, with one alpha.
fn process(pipe: &mut Pipeline<u8>, yuyv: &[u8], alpha: f32) -> Result<Vec<u8>, PipelineError> {
    pipe.begin(yuyv)?;
    let fgr = pipe.rgb_in().to_vec();
    let pha = vec![single(alpha); fgr.len() / 3];
    pipe.finish_rvm(&fgr, &pha, states())?;
    Ok(pipe.out().to_vec())
}

#[test]
fn greenscreen_pipeline_emits_correctly_sized_yuyv() {
    let (w, h) = (1024u32, 576u32);
    let frame = vec![128u8; (w * h * 2) as usize];
    let mut source = TestSource::new(w, h, vec![frame]);
    let mut sink = TestSink::new();
    let mut pipe = Pipeline::new(rvm(w, h), config(Mode::Greenscreen, w, h));

    let input = source.next_frame().unwrap().to_vec();
    let out = process(&mut pipe, &input, 0.5).unwrap();
    sink.write_frame(&out).unwrap();

    assert_eq!(sink.frames().len(), 1);
    assert_eq!(sink.frames()[0].len(), (w * h * 2) as usize);
}

#[test]
fn alpha_pipeline_emits_correctly_sized_bgra() {
    let (w, h) = (1024u32, 576u32);
    let frame = vec![128u8; (w * h * 2) as usize];
    let mut pipe = Pipeline::new(rvm(w, h), config(Mode::Alpha, w, h));
    let out = process(&mut pipe, &frame, 0.5).unwrap();
    assert_eq!(out.len(), (w * h * 4) as usize);
}

#[test]
fn transparent_frames_show_the_key_colour() {
    let mut pipe = Pipeline::new(rvm(4, 2), config(Mode::Greenscreen, 4, 2));
    let frame: Vec<u8> = (0..16).map(|i| i * 16).collect();
    let out = process(&mut pipe, &frame, 0.0).unwrap();
    let [y, u, v] = rgb_to_yuv(0, 255, 0);
    assert_eq!(out, [y, u, y, v].repeat(4));
}

#[test]
fn opaque_frames_keep_their_luma() {
    let mut pipe = Pipeline::new(rvm(2, 1), config(Mode::Greenscreen, 2, 1));
    let frame = [81, 90, 200, 140];
    let out = process(&mut pipe, &frame, 1.0).unwrap();
    let [r, g, b] = yuv_to_rgb(81, 90, 140);
    assert_eq!(out[0], rgb_to_yuv(r, g, b)[0]);
    let [r, g, b] = yuv_to_rgb(200, 90, 140);
    assert_eq!(out[2], rgb_to_yuv(r, g, b)[0]);
}

#[test]
fn alpha_frames_are_premultiplied_on_request() {
    let frame = [180, 128, 180, 128];
    let [r, g, b] = yuv_to_rgb(180, 128, 128);
    let mut straight = config(Mode::Alpha, 2, 1);
    straight.premultiplied = false;
    let mut pipe = Pipeline::new(rvm(2, 1), straight);
    assert_eq!(process(&mut pipe, &frame, 0.0).unwrap(), [b, g, r, 0, b, g, r, 0]);
    let mut pipe = Pipeline::new(rvm(2, 1), config(Mode::Alpha, 2, 1));
    assert_eq!(process(&mut pipe, &frame, 0.0).unwrap(), [0; 8]);
    assert_eq!(process(&mut pipe, &frame, 1.0).unwrap(), [b, g, r, 255, b, g, r, 255]);
}

#[test]
fn image_mode_shows_the_image() {
    let picture = Picture { width: 2, height: 1, rgb: vec![200, 10, 30, 200, 10, 30] };
    let mut with_image = config(Mode::Image, 2, 1);
    with_image.background = Some(Background::load(&picture, 2, 1, Fit::Cover));
    let mut pipe = Pipeline::new(rvm(2, 1), with_image);
    let [y, u, v] = rgb_to_yuv(200, 10, 30);
    assert_eq!(process(&mut pipe, &[0, 128, 0, 128], 0.0).unwrap(), [y, u, y, v]);

    let mut pipe = Pipeline::new(rvm(2, 1), config(Mode::Image, 2, 1));
    let error = process(&mut pipe, &[0, 128, 0, 128], 0.0).unwrap_err();
    assert_eq!(error, PipelineError::NoBackground);
    assert_eq!(error.message(), "image mode without a background");
}

#[test]
fn the_network_gets_the_converted_frame() {
    let frame: Vec<u8> = (0..16).map(|i| 255 - i * 9).collect();
    let mut want = vec![Single::from_bits(0); 24];
    yuyv_to_rgb_f32_nchw(&frame, 4, 2, &mut want);
    let mut pipe = Pipeline::new(rvm(4, 2), config(Mode::Alpha, 4, 2));
    assert!(matches!(pipe.begin(&frame), Ok(Request::Rvm { state: None })));
    assert_eq!(pipe.rgb_in(), want);
}

#[test]
fn a_reset_forgets_the_scene() {
    let frame = [0, 128, 0, 128];
    let mut pipe = Pipeline::new(rvm(2, 1), config(Mode::Alpha, 2, 1));
    process(&mut pipe, &frame, 0.5).unwrap();
    assert!(pipe.model().has_state());
    pipe.reset().unwrap();
    assert!(!pipe.model().has_state());
    assert!(matches!(pipe.begin(&frame), Ok(Request::Rvm { state: None })));
}

#[test]
fn a_frame_that_fails_is_not_put_out() {
    let mut pipe = Pipeline::new(rvm(2, 1), config(Mode::Alpha, 2, 1));
    pipe.begin(&[0, 128, 0, 128]).unwrap();
    let missing = States { r2: None, ..states() };
    let error = pipe.finish_rvm(&[single(1.0); 6], &[single(1.0); 2], missing).unwrap_err();
    assert_eq!(error.message(), "missing r2o");
    assert_eq!(pipe.out(), [0; 8]);
}

#[test]
fn background_matting_goes_through_the_plate() {
    let mut m = model(&["src", "bgr"], 2, 1);
    m.set_background(&[single(0.5); 6]).unwrap();
    let mut pipe = Pipeline::new(m, config(Mode::Alpha, 2, 1));
    assert!(matches!(pipe.begin(&[0, 128, 0, 128]), Ok(Request::Bgmv2)));
    pipe.finish_bgmv2(&[single(1.0); 6], &[single(1.0); 2]).unwrap();
    assert_eq!(pipe.out(), [255; 8]);
    let mut pipe = Pipeline::new(model(&["src", "bgr"], 2, 1), config(Mode::Alpha, 2, 1));
    assert!(pipe.begin(&[0, 128, 0, 128]).is_err());
}

#[test]
fn plates_are_normalized() {
    let picture = Picture { width: 2, height: 1, rgb: vec![0, 51, 255, 102, 153, 204] };
    let values = load_plate("p.png", &picture, 2, 1).unwrap();
    let want: Vec<Single> =
        [0, 102, 51, 153, 255, 204].iter().map(|&b| single(b as f32 / 255.0)).collect();
    assert_eq!(values, want);
    assert_eq!(
        load_plate("p.png", &picture, 1024, 576).unwrap_err(),
        "background plate p.png is 2x1 but the camera is 1024x576; \
         capture a new one with `matting capture-plate`"
    );
}

#[test]
fn a_kept_plate_is_the_frame_that_was_captured() {
    let frame: Vec<u8> = (0..24).map(|i| i * 10).collect();
    let rgb = plate_from_frame(&frame, 4, 3);
    assert_eq!(rgb[..3], yuv_to_rgb(frame[0], frame[1], frame[3]));
    let picture = Picture { width: 4, height: 3, rgb };
    let mut want = vec![Single::from_bits(0); 36];
    yuyv_to_rgb_f32_nchw(&frame, 4, 3, &mut want);
    assert_eq!(load_plate("p.png", &picture, 4, 3).unwrap(), want);
}

#[test]
fn plates_have_the_size_of_the_model() {
    assert_eq!(plate_size(Some((640, 360))), (640, 360));
    assert_eq!(plate_size(None), (1024, 576));
}

#[test]
fn plates_are_planned_by_architecture() {
    assert_eq!(plan_plate(Arch::Rvm, false, "/dev/video0"), Ok(PlatePlan::Nothing));
    assert_eq!(plan_plate(Arch::Rvm, true, "/dev/video0"), Ok(PlatePlan::Ignore));
    assert_eq!(plan_plate(Arch::Bgmv2, true, "/dev/video0"), Ok(PlatePlan::Load));
    assert_eq!(
        plan_plate(Arch::Bgmv2, false, "/dev/video3").unwrap_err(),
        "the prepared model is BackgroundMattingV2, which needs a background plate.\n\
         Capture one with:  matting capture-plate --input /dev/video3 --output background.png\n\
         then pass it with --plate background.png"
    );
}

#[test]
fn the_stream_is_announced() {
    assert_eq!(
        announcement(1024, 576, Mode::Greenscreen, "/dev/video0", "/dev/video9"),
        "Streaming 1024x576 Greenscreen from /dev/video0 to /dev/video9 as YUYV"
    );
}

#[test]
fn only_transparency_needs_a_note() {
    assert_eq!(
        mode_note(Mode::Alpha),
        Some(
            "Note: alpha output is only displayed correctly by OBS. \
             Browsers, Zoom and Discord need --mode greenscreen or --mode image."
        )
    );
    assert_eq!(mode_note(Mode::Greenscreen), None);
    assert_eq!(mode_note(Mode::Image), None);
}
