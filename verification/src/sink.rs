//! Where frames go.

use crate::capture;
use crate::capture::{FourCC, Offer, StreamError};
use crate::cli::Mode;
use crate::text;
use vstd::prelude::*;

verus! {

pub trait Sink {
    fn write_frame(&mut self, data: &[u8]) -> (done: Result<(), StreamError>);
}

/// The code of the format that a mode puts out: `AR24` or `YUYV`.
pub open spec fn mode_code(mode: Mode) -> Seq<u8> {
    match mode {
        Mode::Alpha => seq![65u8, 82u8, 50u8, 52u8],
        _ => capture::yuyv_code(),
    }
}

pub open spec fn mode_code_text(mode: Mode) -> Seq<char> {
    match mode {
        Mode::Alpha => "AR24"@,
        _ => "YUYV"@,
    }
}

pub open spec fn mode_bytes_per_pixel(mode: Mode) -> nat {
    match mode {
        Mode::Alpha => 4,
        _ => 2,
    }
}

/// Alpha needs a format that carries it, which only OBS consumes. Everything
/// else emits YUYV so browsers, Zoom and Discord work.
pub fn fourcc_for(mode: Mode) -> (code: FourCC)
    ensures
        code.repr@ == mode_code(mode),
        code.repr@ == if mode is Alpha {
            seq![65u8, 82u8, 50u8, 52u8]
        } else {
            seq![89u8, 85u8, 89u8, 86u8]
        },
{
    match mode {
        Mode::Alpha => {
            let repr: [u8; 4] = [65, 82, 50, 52];
            assert(repr@ =~= mode_code(mode));
            FourCC { repr }
        },
        Mode::Greenscreen | Mode::Image => capture::yuyv(),
    }
}

/// How the code of a mode's format is written.
pub fn fourcc_text(mode: Mode) -> (text: &'static str)
    ensures
        text@ == mode_code_text(mode),
{
    match mode {
        Mode::Alpha => "AR24",
        Mode::Greenscreen | Mode::Image => "YUYV",
    }
}

pub fn bytes_per_pixel(mode: Mode) -> (n: usize)
    ensures
        n == mode_bytes_per_pixel(mode),
        n == if mode is Alpha {
            4int
        } else {
            2int
        },
{
    match mode {
        Mode::Alpha => 4,
        Mode::Greenscreen | Mode::Image => 2,
    }
}

pub open spec fn sink_refusal(
    path: Seq<char>,
    width: u32,
    height: u32,
    mode: Mode,
    offer: Offer,
) -> Seq<char> {
    path + " would not accept "@ + mode_code_text(mode) + " "@ + capture::size_text(width, height)
        + "; it is currently "@ + offer.shown@ + " "@ + capture::size_text(
        offer.width,
        offer.height,
    )
        + ".\nThis usually means something else still has the device open — a virtual camera keeps its pixel format while a consumer is attached.\nClose whatever is viewing it (check with `fuser -v "@
        + path + "`), then try again."@
}

/// Refuses a virtual camera that did not take the format of a mode.
///
/// v4l2loopback pins its format for as long as a consumer has the device open,
/// so switching modes while OBS (or a browser, or ffplay) is watching fails
/// here rather than at startup.
pub fn check_format(path: &str, width: u32, height: u32, mode: Mode, offer: &Offer) -> (verdict:
    Result<(), StreamError>)
    ensures
        match verdict {
            Ok(_) => capture::is_met(*offer, mode_code(mode), width, height),
            Err(e) => !capture::is_met(*offer, mode_code(mode), width, height) && e.message@
                == sink_refusal(path@, width, height, mode, *offer),
        },
        verdict is Ok <==> offer.width == width && offer.height == height && offer.fourcc.repr@
            == if mode is Alpha {
            seq![65u8, 82u8, 50u8, 52u8]
        } else {
            seq![89u8, 85u8, 89u8, 86u8]
        },
{
    if offer.width != width || offer.height != height || !offer.fourcc.is(&fourcc_for(mode)) {
        let message = path.to_owned().concat(" would not accept ").concat(
            fourcc_text(mode),
        ).concat(" ").concat(capture::size(width, height).as_str()).concat(
            "; it is currently ",
        ).concat(offer.shown.as_str()).concat(" ").concat(
            capture::size(offer.width, offer.height).as_str(),
        ).concat(
            ".\nThis usually means something else still has the device open — a virtual camera keeps its pixel format while a consumer is attached.\nClose whatever is viewing it (check with `fuser -v ",
        ).concat(path).concat("`), then try again.");
        return Err(StreamError { message });
    }
    Ok(())
}

/// How many bytes one frame has.
pub fn frame_len(width: u32, height: u32, mode: Mode) -> (len: usize)
    requires
        width * height * mode_bytes_per_pixel(mode) <= usize::MAX,
    ensures
        len == width * height * mode_bytes_per_pixel(mode),
        len == if mode is Alpha {
            4 * (width * height)
        } else {
            2 * (width * height)
        },
{
    proof {
        let plane = width * height;
        let n = mode_bytes_per_pixel(mode);
        assert(plane <= plane * n) by (nonlinear_arith)
            requires
                plane >= 0,
                n >= 1,
        ;
        assert(n == 4 ==> plane * n == 4 * plane) by (nonlinear_arith);
        assert(n == 2 ==> plane * n == 2 * plane) by (nonlinear_arith);
    }
    width as usize * height as usize * bytes_per_pixel(mode)
}

/// Refuses a frame that has not just the length that the device takes.
pub fn check_length(len: usize, frame_len: usize) -> (verdict: Result<(), StreamError>)
    ensures
        match verdict {
            Ok(_) => len == frame_len,
            Err(e) => len != frame_len && e.message@ == "expected "@ + text::digits(
                frame_len as nat,
            ) + " bytes, got "@ + text::digits(len as nat),
        },
{
    if len != frame_len {
        let message = "expected ".to_owned().concat(
            text::decimal(frame_len as u64).as_str(),
        ).concat(" bytes, got ").concat(text::decimal(len as u64).as_str());
        return Err(StreamError { message });
    }
    Ok(())
}

/// Records frames in memory so the pipeline can be tested without a device.
#[derive(Debug)]
pub struct TestSink {
    frames: Vec<Vec<u8>>,
}

impl TestSink {
    /// The frames that were written, the first one first.
    pub closed spec fn written(&self) -> Seq<Seq<u8>> {
        capture::frame_views(self.frames@)
    }

    pub fn new() -> (sink: TestSink)
        ensures
            sink.written() == Seq::<Seq<u8>>::empty(),
    {
        let sink = TestSink { frames: Vec::new() };
        assert(sink.written() =~= Seq::<Seq<u8>>::empty());
        sink
    }

    pub fn frames(&self) -> (frames: &[Vec<u8>])
        ensures
            capture::frame_views(frames@) == self.written(),
    {
        self.frames.as_slice()
    }
}

impl Default for TestSink {
    fn default() -> (sink: Self)
        ensures
            sink.written() == Seq::<Seq<u8>>::empty(),
    {
        Self::new()
    }
}

impl Sink for TestSink {
    fn write_frame(&mut self, data: &[u8]) -> (done: Result<(), StreamError>)
        ensures
            done is Ok,
            final(self).written() == old(self).written().push(data@),
    {
        let ghost before = self.written();
        self.frames.push(vstd::slice::slice_to_vec(data));
        assert(self.written() =~= before.push(data@));
        Ok(())
    }
}

} // verus!
