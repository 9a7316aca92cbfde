use matting::capture::{check_format, frame_buffer, refill, FourCC, Offer, Source, TestSource};

#[test]
fn test_source_cycles_frames() {
    let a = vec![1u8; 8];
    let b = vec![2u8; 8];
    let mut src = TestSource::new(2, 2, vec![a.clone(), b.clone()]);
    assert_eq!(src.dimensions(), (2, 2));
    assert_eq!(src.next_frame().unwrap(), &a[..]);
    assert_eq!(src.next_frame().unwrap(), &b[..]);
    assert_eq!(src.next_frame().unwrap(), &a[..], "should wrap around");
}

#[test]
fn a_source_without_frames_has_none_to_give() {
    let mut src = TestSource::new(2, 2, Vec::new());
    assert_eq!(src.next_frame().unwrap_err().message, "TestSource has no frames");
}

fn offer(code: &[u8; 4], width: u32, height: u32) -> Offer {
    Offer {
        fourcc: FourCC::new(code),
        shown: String::from_utf8(code.to_vec()).unwrap(),
        width,
        height,
    }
}

#[test]
fn a_camera_has_to_deliver_what_was_asked_for() {
    let check = |o: &Offer| check_format("/dev/video0", 1024, 576, o);
    assert!(check(&offer(b"YUYV", 1024, 576)).is_ok());
    assert_eq!(
        check(&offer(b"MJPG", 1024, 576)).unwrap_err().message,
        "/dev/video0 would not accept YUYV 1024x576; it offered MJPG 1024x576"
    );
    assert_eq!(
        check(&offer(b"YUYV", 640, 576)).unwrap_err().message,
        "/dev/video0 would not accept YUYV 1024x576; it offered YUYV 640x576"
    );
    assert!(check(&offer(b"YUYV", 1024, 480)).is_err());
}

#[test]
fn short_and_long_captures_fill_what_they_can() {
    let mut buffer = frame_buffer(2, 1);
    assert_eq!(buffer, [0; 4]);
    refill(&mut buffer, &[1, 2, 3, 4, 5]);
    assert_eq!(buffer, [1, 2, 3, 4]);
    refill(&mut buffer, &[9]);
    assert_eq!(buffer, [9, 2, 3, 4]);
}
