use matting::stream::{Recovery, Stream, Throughput, WINDOW};

#[test]
fn streaming_gives_up_after_fifty_one_failures_in_a_row() {
    let mut stream = Stream::new(false);
    for n in 1..=50 {
        assert_eq!(stream.capture_failed(), (false, Recovery::Retry { failures: n }));
    }
    assert_eq!(stream.capture_failed(), (false, Recovery::GiveUp));
}

#[test]
fn a_frame_in_between_renews_patience() {
    let mut stream = Stream::new(false);
    for _ in 0..50 {
        stream.capture_failed();
    }
    stream.captured();
    assert_eq!(stream.capture_failed(), (false, Recovery::Retry { failures: 1 }));
}

#[test]
fn throughput_is_reported_once_a_second() {
    let mut stream = Stream::new(true);
    assert_eq!(stream.delivered(5, WINDOW - 1), None);
    assert!(!stream.stands_open());
    assert_eq!(stream.delivered(7, WINDOW), Some(Throughput { frames: 2, processing: 12 }));
    assert!(stream.stands_open());
    assert_eq!(stream.delivered(3, 10), None);
    assert_eq!(stream.delivered(4, 2 * WINDOW), Some(Throughput { frames: 2, processing: 7 }));
}

#[test]
fn an_open_status_line_is_closed_once() {
    let mut stream = Stream::new(true);
    stream.delivered(1, WINDOW);
    assert_eq!(stream.capture_failed(), (true, Recovery::Retry { failures: 1 }));
    assert_eq!(stream.capture_failed(), (false, Recovery::Retry { failures: 2 }));
    let mut quiet = Stream::new(false);
    quiet.delivered(1, WINDOW);
    assert!(!quiet.stands_open());
}

#[test]
fn status_lines_are_redrawn_on_a_terminal_only() {
    assert_eq!(Stream::new(true).status("30.0 fps"), "\r30.0 fps\u{1b}[K");
    assert_eq!(Stream::new(false).status("30.0 fps"), "30.0 fps\n");
}

#[test]
fn counts_that_would_overflow_are_known() {
    let mut stream = Stream::new(false);
    assert!(stream.can_count(u128::MAX));
    stream.delivered(1, 0);
    assert!(stream.can_count(u128::MAX - 1));
    assert!(!stream.can_count(u128::MAX));
}
