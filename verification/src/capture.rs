//! Where frames come from.

use crate::text;
use vstd::arithmetic::div_mod;
use vstd::prelude::*;

verus! {

/// Why a frame could not be read or written.
#[derive(Debug)]
pub struct StreamError {
    pub message: String,
}

/// Four character code of a pixel format.
#[derive(Debug, Clone, Copy, PartialEq, Eq)]
pub struct FourCC {
    pub repr: [u8; 4],
}

impl FourCC {
    pub fn new(repr: &[u8; 4]) -> (code: FourCC)
        ensures
            code.repr@ == repr@,
    {
        FourCC { repr: *repr }
    }

    pub fn is(&self, other: &FourCC) -> (yes: bool)
        ensures
            yes == (self.repr@ == other.repr@),
    {
        let same = self.repr[0] == other.repr[0] && self.repr[1] == other.repr[1] && self.repr[2]
            == other.repr[2] && self.repr[3] == other.repr[3];
        assert(same ==> self.repr@ =~= other.repr@);
        same
    }
}

/// The format that a device settled on. `shown` is how its code is written.
#[derive(Debug)]
pub struct Offer {
    pub fourcc: FourCC,
    pub shown: String,
    pub width: u32,
    pub height: u32,
}

/// The bytes `YUYV`.
pub open spec fn yuyv_code() -> Seq<u8> {
    seq![89u8, 85u8, 89u8, 86u8]
}

pub fn yuyv() -> (code: FourCC)
    ensures
        code.repr@ == yuyv_code(),
{
    let repr: [u8; 4] = [89, 85, 89, 86];
    assert(repr@ =~= yuyv_code());
    FourCC { repr }
}

/// Whether a device offers just what was asked for.
pub open spec fn is_met(offer: Offer, code: Seq<u8>, width: u32, height: u32) -> bool {
    offer.width == width && offer.height == height && offer.fourcc.repr@ == code
}

pub open spec fn size_text(width: u32, height: u32) -> Seq<char> {
    text::digits(width as nat) + "x"@ + text::digits(height as nat)
}

pub(crate) fn size(width: u32, height: u32) -> (text: String)
    ensures
        text@ == size_text(width, height),
{
    text::decimal(width as u64).concat("x").concat(text::decimal(height as u64).as_str())
}

pub open spec fn capture_refusal(path: Seq<char>, width: u32, height: u32, offer: Offer) -> Seq<
    char,
> {
    path + " would not accept YUYV "@ + size_text(width, height) + "; it offered "@ + offer.shown@
        + " "@ + size_text(offer.width, offer.height)
}

/// Refuses a camera that does not deliver what was asked for.
pub fn check_format(path: &str, width: u32, height: u32, offer: &Offer) -> (verdict: Result<
    (),
    StreamError,
>)
    ensures
        match verdict {
            Ok(_) => is_met(*offer, yuyv_code(), width, height),
            Err(e) => !is_met(*offer, yuyv_code(), width, height) && e.message@ == capture_refusal(
                path@,
                width,
                height,
                *offer,
            ),
        },
        verdict is Ok <==> offer.fourcc.repr@ == seq![89u8, 85u8, 89u8, 86u8] && offer.width
            == width && offer.height == height,
{
    if offer.width != width || offer.height != height || !offer.fourcc.is(&yuyv()) {
        let message = path.to_owned().concat(" would not accept YUYV ").concat(
            size(width, height).as_str(),
        ).concat("; it offered ").concat(offer.shown.as_str()).concat(" ").concat(
            size(offer.width, offer.height).as_str(),
        );
        return Err(StreamError { message });
    }
    Ok(())
}

/// An empty buffer for one YUYV frame.
pub fn frame_buffer(width: u32, height: u32) -> (buffer: Vec<u8>)
    requires
        width * height * 2 <= u32::MAX,
    ensures
        buffer@ == Seq::new((width * height * 2) as nat, |i: int| 0u8),
{
    proof {
        assert(width * height <= width * height * 2);
    }
    let buffer = vec![0u8; (width * height * 2) as usize];
    assert(buffer@ =~= Seq::new((width * height * 2) as nat, |i: int| 0u8));
    buffer
}

/// Takes a captured frame into the buffer. What is too long is cut off, and
/// where it is too short the end of the last frame stays.
pub fn refill(buffer: &mut Vec<u8>, captured: &[u8])
    ensures
        final(buffer)@ == Seq::new(
            old(buffer)@.len(),
            |i: int| if i < captured@.len() {
                captured@[i]
            } else {
                old(buffer)@[i]
            },
        ),
{
    let ghost before = buffer@;
    let mut i: usize = 0;
    while i < buffer.len() && i < captured.len()
        invariant
            buffer@.len() == before.len(),
            i <= before.len(),
            i <= captured@.len(),
            forall|j: int|
                0 <= j < before.len() ==> buffer@[j] == if j < i {
                    captured@[j]
                } else {
                    before[j]
                },
        decreases before.len() - i,
    {
        buffer.set(i, captured[i]);
        i = i + 1;
    }
    assert(buffer@ =~= Seq::new(
        before.len(),
        |i: int| if i < captured@.len() {
            captured@[i]
        } else {
            before[i]
        },
    ));
}

/// A source of YUYV 4:2:2 frames. Abstracted so the pipeline can be tested
/// without a camera.
pub trait Source {
    fn next_frame(&mut self) -> (frame: Result<&[u8], StreamError>);

    fn dimensions(&self) -> (size: (u32, u32));
}

/// Deterministic in-memory source for tests. Cycles through its frames.
#[derive(Debug)]
pub struct TestSource {
    width: u32,
    height: u32,
    frames: Vec<Vec<u8>>,
    index: usize,
}

/// The frame that comes when `next` is due.
pub open spec fn due_frame(frames: Seq<Seq<u8>>, next: int) -> Seq<u8> {
    frames[next % frames.len() as int]
}

/// What is due after one more frame.
pub open spec fn due_after(frames: Seq<Seq<u8>>, next: int) -> int {
    next % frames.len() as int + 1
}

pub open spec fn frame_views(frames: Seq<Vec<u8>>) -> Seq<Seq<u8>> {
    Seq::new(frames.len(), |i: int| frames[i]@)
}

impl TestSource {
    /// The frames that are cycled through.
    pub closed spec fn stock(&self) -> Seq<Seq<u8>> {
        frame_views(self.frames@)
    }

    /// Which frame is due, counted on past the last one.
    pub closed spec fn due(&self) -> int {
        self.index as int
    }

    pub closed spec fn size(&self) -> (u32, u32) {
        (self.width, self.height)
    }

    pub fn new(width: u32, height: u32, frames: Vec<Vec<u8>>) -> (source: TestSource)
        ensures
            source.stock() == frame_views(frames@),
            source.due() == 0,
            source.size() == (width, height),
    {
        TestSource { width, height, frames, index: 0 }
    }
}

impl Source for TestSource {
    fn next_frame(&mut self) -> (frame: Result<&[u8], StreamError>)
        ensures
            final(self).stock() == old(self).stock(),
            final(self).size() == old(self).size(),
            match frame {
                Ok(f) => old(self).stock().len() > 0 && f@ == due_frame(
                    old(self).stock(),
                    old(self).due(),
                ) && final(self).due() == due_after(old(self).stock(), old(self).due()),
                Err(e) => old(self).stock().len() == 0 && e.message@
                    == "TestSource has no frames"@ && final(self).due() == old(self).due(),
            },
            frame matches Ok(f) ==> {
                let count = old(self).stock().len() as int;
                &&& f@ == old(self).stock()[old(self).due() % count]
                &&& final(self).due() % count == (old(self).due() + 1) % count
            },
    {
        if self.frames.len() == 0 {
            return Err(StreamError { message: "TestSource has no frames".to_owned() });
        }
        let i = self.index % self.frames.len();
        proof {
            let count = self.frames@.len() as int;
            div_mod::lemma_add_mod_noop(self.index as int, 1, count);
            div_mod::lemma_add_mod_noop(i as int, 1, count);
            div_mod::lemma_mod_twice(self.index as int, count);
        }
        self.index = i + 1;
        Ok(self.frames[i].as_slice())
    }

    fn dimensions(&self) -> (size: (u32, u32))
        ensures
            size == self.size(),
    {
        (self.width, self.height)
    }
}

/// What is due after a number of frames.
pub open spec fn due_after_reads(frames: Seq<Seq<u8>>, reads: nat) -> int
    decreases reads,
{
    if reads == 0 {
        0
    } else {
        due_after(frames, due_after_reads(frames, (reads - 1) as nat))
    }
}

/// The source cycles through its frames: after any number of frames, the one
/// with that number comes, counted round and round.
pub proof fn law_source_cycles(frames: Seq<Seq<u8>>, reads: nat)
    requires
        frames.len() > 0,
    ensures
        due_frame(frames, due_after_reads(frames, reads)) == frames[reads as int
            % frames.len() as int],
{
    lemma_due(frames, reads);
}

proof fn lemma_due(frames: Seq<Seq<u8>>, reads: nat)
    requires
        frames.len() > 0,
    ensures
        due_after_reads(frames, reads) % frames.len() as int == reads as int % frames.len() as int,
    decreases reads,
{
    let n = frames.len() as int;
    if reads > 0 {
        let before = due_after_reads(frames, (reads - 1) as nat);
        lemma_due(frames, (reads - 1) as nat);
        div_mod::lemma_add_mod_noop(before % n, 1, n);
        div_mod::lemma_add_mod_noop(reads - 1, 1, n);
        div_mod::lemma_mod_twice(before, n);
    }
}

} // verus!
