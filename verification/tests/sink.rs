use matting::capture::{FourCC, Offer};
use matting::cli::Mode;
use matting::sink::{
    bytes_per_pixel, check_format, check_length, fourcc_for, fourcc_text, frame_len, Sink,
    TestSink,
};

#[test]
fn alpha_mode_uses_bgra_fourcc() {
    assert_eq!(fourcc_for(Mode::Alpha), FourCC::new(b"AR24"));
    assert_eq!(bytes_per_pixel(Mode::Alpha), 4);
}

#[test]
fn opaque_modes_use_yuyv() {
    for mode in [Mode::Greenscreen, Mode::Image] {
        assert_eq!(fourcc_for(mode), FourCC::new(b"YUYV"));
        assert_eq!(bytes_per_pixel(mode), 2);
    }
}

#[test]
fn test_sink_records_frames() {
    let mut sink = TestSink::new();
    sink.write_frame(&[1, 2, 3]).unwrap();
    sink.write_frame(&[4, 5, 6]).unwrap();
    assert_eq!(sink.frames(), &[vec![1, 2, 3], vec![4, 5, 6]]);
}

#[test]
fn a_default_sink_is_empty() {
    assert!(TestSink::default().frames().is_empty());
}

#[test]
fn codes_are_shown_as_they_are() {
    for mode in [Mode::Alpha, Mode::Greenscreen, Mode::Image] {
        assert_eq!(fourcc_text(mode).as_bytes(), fourcc_for(mode).repr);
    }
}

#[test]
fn a_device_has_to_take_the_format_of_the_mode() {
    let offer = |code: &[u8; 4], width| Offer {
        fourcc: FourCC::new(code),
        shown: String::from_utf8(code.to_vec()).unwrap(),
        width,
        height: 576,
    };
    assert!(check_format("/dev/video9", 1024, 576, Mode::Alpha, &offer(b"AR24", 1024)).is_ok());
    assert!(check_format("/dev/video9", 1024, 576, Mode::Image, &offer(b"YUYV", 1024)).is_ok());
    assert!(check_format("/dev/video9", 1024, 576, Mode::Image, &offer(b"YUYV", 640)).is_err());
    let error = check_format("/dev/video9", 1024, 576, Mode::Alpha, &offer(b"YUYV", 1024));
    assert_eq!(
        error.unwrap_err().message,
        "/dev/video9 would not accept AR24 1024x576; it is currently YUYV 1024x576.\n\
         This usually means something else still has the device open — a virtual \
         camera keeps its pixel format while a consumer is attached.\n\
         Close whatever is viewing it (check with `fuser -v /dev/video9`), then try again."
    );
}

#[test]
fn frames_have_one_length() {
    assert_eq!(frame_len(1024, 576, Mode::Alpha), 1024 * 576 * 4);
    assert_eq!(frame_len(1024, 576, Mode::Image), 1024 * 576 * 2);
    assert!(check_length(8, 8).is_ok());
    assert_eq!(check_length(7, 8).unwrap_err().message, "expected 8 bytes, got 7");
}
