//! From a camera frame to an output frame.

use crate::capture;
use crate::cli::Mode;
use crate::composite;
use crate::composite::{Background, Picture};
use crate::convert;
use crate::model;
use crate::model::{Arch, Matting, MattingError, Request, States};
use crate::number::Number;
use crate::single::Single;
use crate::sink;
use vstd::prelude::*;

verus! {

/// Everything the pipeline needs besides the model itself.
#[derive(Debug)]
pub struct Config {
    pub mode: Mode,
    pub colour: [u8; 3],
    pub background: Option<Background>,
    pub width: u32,
    pub height: u32,
    pub premultiplied: bool,
}

#[derive(Debug)]
pub struct Pipeline<T> {
    model: Matting<T>,
    mode: Mode,
    colour: [u8; 3],
    background: Option<Background>,
    width: usize,
    height: usize,
    premultiplied: bool,
    rgb_in: Vec<Single>,
    rgb_out: Vec<u8>,
    out: Vec<u8>,
}

/// Why a frame did not get through.
#[derive(Debug, Clone, Copy, PartialEq, Eq, Structural)]
pub enum PipelineError {
    Matting { error: MattingError },
    NoBackground,
}

pub open spec fn error_text(error: PipelineError) -> Seq<char> {
    match error {
        PipelineError::Matting { error } => model::matting_error_text(error),
        PipelineError::NoBackground => "image mode without a background"@,
    }
}

impl PipelineError {
    pub fn message(self) -> (text: String)
        ensures
            text@ == error_text(self),
    {
        match self {
            PipelineError::Matting { error } => error.message(),
            PipelineError::NoBackground => "image mode without a background".to_owned(),
        }
    }
}

/// What a pipeline is set to.
pub struct Settings {
    pub mode: Mode,
    pub colour: (nat, nat, nat),
    pub background: Option<Seq<u8>>,
    pub width: int,
    pub height: int,
    pub premultiplied: bool,
}

pub open spec fn background_view(background: Option<Background>) -> Option<Seq<u8>> {
    match background {
        Some(b) => Some(b.pixels()),
        None => None,
    }
}

impl Config {
    pub open spec fn settings(&self) -> Settings {
        Settings {
            mode: self.mode,
            colour: (self.colour[0] as nat, self.colour[1] as nat, self.colour[2] as nat),
            background: background_view(self.background),
            width: self.width as int,
            height: self.height as int,
            premultiplied: self.premultiplied,
        }
    }
}

/// One of three.
pub open spec fn pick(three: (nat, nat, nat), i: int) -> nat {
    if i == 0 {
        three.0
    } else if i == 1 {
        three.1
    } else {
        three.2
    }
}

/// The interleaved RGB image of a foreground over a background, which has one
/// colour for each pixel.
pub open spec fn mixed(
    fgr: Seq<Single>,
    pha: Seq<Single>,
    plane: int,
    back: spec_fn(int) -> (nat, nat, nat),
) -> Seq<u8> {
    Seq::new(
        (3 * plane) as nat,
        |k: int|
            pick(
                composite::opaque(
                    convert::planar_pixel(fgr, plane, k / 3),
                    pha[k / 3]@,
                    back(k / 3),
                ),
                k % 3,
            ) as u8,
    )
}

/// What lies behind the foreground.
pub open spec fn backdrop(settings: Settings) -> spec_fn(int) -> (nat, nat, nat) {
    match settings.mode {
        Mode::Image => |p: int| composite::rgb_pixel(settings.background->0, p),
        _ => |p: int| settings.colour,
    }
}

/// Whether `out` shows a foreground as a pipeline with some settings does.
/// `before` is what the output buffer held: where chroma has no pair, it stays.
pub open spec fn shows(
    settings: Settings,
    fgr: Seq<Single>,
    pha: Seq<Single>,
    before: Seq<u8>,
    out: Seq<u8>,
) -> bool {
    let plane = settings.width * settings.height;
    &&& out.len() == before.len()
    &&& match settings.mode {
        Mode::Alpha => forall|p: int|
            0 <= p < plane ==> #[trigger] composite::bgra_pixel(out, p) == composite::transparent(
                convert::planar_pixel(fgr, plane, p),
                pha[p]@,
                settings.premultiplied,
            ),
        _ => forall|p: int|
            0 <= p < plane ==> #[trigger] convert::yuyv_pixel(out, p)
                == if convert::is_paired(settings.width, p) {
                convert::packed_pixel(
                    mixed(fgr, pha, plane, backdrop(settings)),
                    settings.width,
                    p,
                )
            } else {
                convert::yuyv_pixel(before, p)
            },
    }
}

/// Whether `rgb` is what the network gets for a YUYV frame.
pub open spec fn is_converted(
    settings: Settings,
    yuyv: Seq<u8>,
    before: Seq<Single>,
    rgb: Seq<Single>,
) -> bool {
    let plane = settings.width * settings.height;
    &&& rgb.len() == 3 * plane
    &&& forall|p: int|
        0 <= p < plane ==> #[trigger] convert::planar_pixel(rgb, plane, p) == if convert::is_paired(
            settings.width,
            p,
        ) {
            convert::colour_of(yuyv, settings.width, p)
        } else {
            convert::planar_pixel(before, plane, p)
        }
}

/// An image is known by its pixels.
proof fn lemma_mixed(
    rgb: Seq<u8>,
    fgr: Seq<Single>,
    pha: Seq<Single>,
    plane: int,
    back: spec_fn(int) -> (nat, nat, nat),
)
    requires
        plane >= 0,
        rgb.len() == 3 * plane,
        forall|p: int|
            0 <= p < plane ==> #[trigger] composite::rgb_pixel(rgb, p) == composite::opaque(
                convert::planar_pixel(fgr, plane, p),
                pha[p]@,
                back(p),
            ),
    ensures
        rgb == mixed(fgr, pha, plane, back),
{
    assert forall|k: int| 0 <= k < rgb.len() implies rgb[k] == mixed(fgr, pha, plane, back)[k] by {
        let p = k / 3;
        assert(composite::rgb_pixel(rgb, p) == composite::opaque(
            convert::planar_pixel(fgr, plane, p),
            pha[p]@,
            back(p),
        ));
        assert(k == 3 * p + k % 3);
    }
    assert(rgb =~= mixed(fgr, pha, plane, back));
}

impl<T> Pipeline<T> {
    pub closed spec fn settings(&self) -> Settings {
        Settings {
            mode: self.mode,
            colour: (self.colour[0] as nat, self.colour[1] as nat, self.colour[2] as nat),
            background: background_view(self.background),
            width: self.width as int,
            height: self.height as int,
            premultiplied: self.premultiplied,
        }
    }

    pub closed spec fn network(&self) -> Matting<T> {
        self.model
    }

    /// What the network was last given.
    pub closed spec fn given(&self) -> Seq<Single> {
        self.rgb_in@
    }

    /// What was last put out.
    pub closed spec fn shown(&self) -> Seq<u8> {
        self.out@
    }

    /// The composed image, before it is packed.
    pub closed spec fn composed(&self) -> Seq<u8> {
        self.rgb_out@
    }

    /// The network, the background and the buffers fit the frame.
    pub open spec fn well_formed(&self) -> bool {
        let s = self.settings();
        let plane = s.width * s.height;
        &&& self.network().well_formed()
        &&& self.network().setup().width == s.width
        &&& self.network().setup().height == s.height
        &&& s.background matches Some(b) ==> b.len() == 3 * plane
        &&& 0 <= s.width
        &&& 0 <= s.height
        &&& self.given().len() == 3 * plane
        &&& self.composed().len() == 3 * plane
        &&& self.shown().len() == plane * sink::mode_bytes_per_pixel(s.mode)
    }

    pub fn new(model: Matting<T>, config: Config) -> (pipeline: Pipeline<T>)
        requires
            model.well_formed(),
            model.setup().width == config.width,
            model.setup().height == config.height,
            config.width * config.height * 4 <= usize::MAX,
            background_view(config.background) matches Some(b) ==> b.len() == 3 * (config.width
                * config.height),
        ensures
            pipeline.well_formed(),
            pipeline.settings() == config.settings(),
            pipeline.settings().mode == config.mode,
            pipeline.settings().colour == (
                config.colour[0] as nat,
                config.colour[1] as nat,
                config.colour[2] as nat,
            ),
            match config.background {
                Some(b) => pipeline.settings().background == Some(b.pixels()),
                None => pipeline.settings().background is None,
            },
            pipeline.settings().width == config.width,
            pipeline.settings().height == config.height,
            pipeline.settings().premultiplied == config.premultiplied,
            pipeline.network() == model,
            pipeline.given() == Seq::new(
                (3 * (config.width * config.height)) as nat,
                |i: int| Single { bits: 0 },
            ),
            pipeline.shown() == Seq::new(
                (config.width * config.height * sink::mode_bytes_per_pixel(config.mode)) as nat,
                |i: int| 0u8,
            ),
    {
        let w = config.width as usize;
        let h = config.height as usize;
        let plane = w * h;
        let pipeline = Pipeline {
            model,
            mode: config.mode,
            colour: config.colour,
            background: config.background,
            width: w,
            height: h,
            premultiplied: config.premultiplied,
            rgb_in: vec![Single::from_bits(0); plane * 3],
            rgb_out: vec![0u8; plane * 3],
            out: vec![0u8; plane * sink::bytes_per_pixel(config.mode)],
        };
        assert(pipeline.rgb_in@ =~= Seq::new((3 * plane) as nat, |i: int| Single { bits: 0 }));
        assert(pipeline.out@ =~= Seq::new(
            (plane * sink::mode_bytes_per_pixel(config.mode)) as nat,
            |i: int| 0u8,
        ));
        pipeline
    }

    /// Converts a frame, and says what to run the network on besides it.
    pub fn begin(&mut self, yuyv: &[u8]) -> (request: Result<Request<T>, PipelineError>)
        requires
            old(self).well_formed(),
            yuyv@.len() == 2 * (old(self).settings().width * old(self).settings().height),
        ensures
            final(self).well_formed(),
            final(self).settings() == old(self).settings(),
            final(self).shown() == old(self).shown(),
            is_converted(old(self).settings(), yuyv@, old(self).given(), final(self).given()),
            forall|row: int, pair: int|
                0 <= row < old(self).settings().height && 0 <= pair < old(self).settings().width
                    / 2 ==> #[trigger] convert::pair_is_unpacked(
                    yuyv@,
                    final(self).given(),
                    old(self).settings().width,
                    old(self).settings().height,
                    row,
                    pair,
                ),
            match request {
                Ok(r) => model::has_begun(
                    old(self).network(),
                    final(self).network(),
                    Ok::<Request<T>, MattingError>(r),
                ),
                Err(e) => e matches PipelineError::Matting { error } && model::has_begun(
                    old(self).network(),
                    final(self).network(),
                    Err::<Request<T>, MattingError>(error),
                ),
            },
    {
        convert::yuyv_to_rgb_f32_nchw(
            yuyv,
            self.width,
            self.height,
            self.rgb_in.as_mut_slice(),
        );
        match self.model.begin() {
            Ok(r) => Ok(r),
            Err(error) => Err(PipelineError::Matting { error }),
        }
    }

    /// The converted frame, which the network is run on.
    pub fn rgb_in(&self) -> (rgb: &[Single])
        ensures
            rgb@ == self.given(),
    {
        self.rgb_in.as_slice()
    }

    pub fn model(&self) -> (model: &Matting<T>)
        ensures
            *model == self.network(),
    {
        &self.model
    }

    /// Puts the last foreground into the output buffer.
    fn compose(&mut self) -> (done: Result<(), PipelineError>)
        requires
            old(self).well_formed(),
        ensures
            final(self).well_formed(),
            final(self).settings() == old(self).settings(),
            final(self).network() == old(self).network(),
            final(self).given() == old(self).given(),
            ({
                let s = old(self).settings();
                let matte = old(self).network().matte();
                match done {
                    Ok(_) => !(s.mode is Image && s.background is None) && shows(
                        s,
                        matte.0,
                        matte.1,
                        old(self).shown(),
                        final(self).shown(),
                    ) && is_composed(s, matte.0, matte.1, final(self).shown()),
                    Err(e) => s.mode is Image && s.background is None && e
                        == PipelineError::NoBackground && final(self).shown() == old(self).shown(),
                }
            }),
    {
        assert(self.out@.len() == self.out.len());
        assert(self.rgb_out@.len() == self.rgb_out.len());
        let plane = self.model.pha().len();
        let ghost s = self.settings();
        proof {
            let frame = s.width * s.height;
            let bytes = sink::mode_bytes_per_pixel(s.mode);
            assert(bytes == 4 ==> frame * bytes == 4 * frame) by (nonlinear_arith);
            assert(bytes == 2 ==> frame * bytes == 2 * frame) by (nonlinear_arith);
        }
        match self.mode {
            Mode::Alpha => {
                composite::to_bgra(
                    self.model.fgr(),
                    self.model.pha(),
                    plane,
                    self.premultiplied,
                    self.out.as_mut_slice(),
                );
            },
            Mode::Greenscreen => {
                composite::over_color(
                    self.model.fgr(),
                    self.model.pha(),
                    plane,
                    self.colour,
                    self.rgb_out.as_mut_slice(),
                );
                proof {
                    lemma_mixed(
                        self.rgb_out@,
                        self.model.matte().0,
                        self.model.matte().1,
                        plane as int,
                        backdrop(s),
                    );
                }
                convert::rgb_to_yuyv(
                    self.rgb_out.as_slice(),
                    self.width,
                    self.height,
                    self.out.as_mut_slice(),
                );
            },
            Mode::Image => {
                let bg = match &self.background {
                    Some(b) => b,
                    None => return Err(PipelineError::NoBackground),
                };
                composite::over_image(
                    self.model.fgr(),
                    self.model.pha(),
                    plane,
                    bg.rgb(),
                    self.rgb_out.as_mut_slice(),
                );
                proof {
                    lemma_mixed(
                        self.rgb_out@,
                        self.model.matte().0,
                        self.model.matte().1,
                        plane as int,
                        backdrop(s),
                    );
                }
                convert::rgb_to_yuyv(
                    self.rgb_out.as_slice(),
                    self.width,
                    self.height,
                    self.out.as_mut_slice(),
                );
            },
        }
        proof {
            let matte = self.model.matte();
            law_composed_frame(s, matte.0, matte.1, old(self).shown(), self.out@);
        }
        Ok(())
    }

    /// Takes the reply of RVM, and puts the frame out.
    pub fn finish_rvm(
        &mut self,
        fgr: &[Single],
        pha: &[Single],
        states: States<Option<T>>,
    ) -> (done: Result<(), PipelineError>)
        requires
            old(self).well_formed(),
            !old(self).network().setup().fp16 ==> fgr@.len() == old(self).network().matte().0.len()
                && pha@.len() == old(self).network().matte().1.len(),
        ensures
            final(self).well_formed(),
            final(self).settings() == old(self).settings(),
            final(self).given() == old(self).given(),
            finishes(
                old(self).settings(),
                old(self).network(),
                final(self).network(),
                fgr@,
                pha@,
                states,
                old(self).shown(),
                final(self).shown(),
                done,
            ),
            done is Ok ==> is_composed(
                old(self).settings(),
                final(self).network().matte().0,
                final(self).network().matte().1,
                final(self).shown(),
            ),
            fgr@.len() == old(self).network().matte().0.len() && pha@.len()
                == old(self).network().matte().1.len() ==> final(self).network().matte() == (
                fgr@,
                pha@,
            ),
            done is Ok <==> states.r1 is Some && states.r2 is Some && states.r3 is Some
                && states.r4 is Some && !(old(self).settings().mode is Image && old(
                self,
            ).settings().background is None),
            done is Err ==> final(self).shown() == old(self).shown(),
    {
        proof {
            model::law_reply_is_kept(old(self).network().matte().0, fgr@);
            model::law_reply_is_kept(old(self).network().matte().1, pha@);
        }
        match self.model.finish_rvm(fgr, pha, states) {
            Ok(_) => self.compose(),
            Err(error) => Err(PipelineError::Matting { error }),
        }
    }

    /// Takes the reply of BackgroundMattingV2, and puts the frame out.
    pub fn finish_bgmv2(&mut self, fgr: &[Single], pha: &[Single]) -> (done: Result<
        (),
        PipelineError,
    >)
        requires
            old(self).well_formed(),
            !old(self).network().setup().fp16 ==> fgr@.len() == old(self).network().matte().0.len()
                && pha@.len() == old(self).network().matte().1.len(),
        ensures
            final(self).well_formed(),
            final(self).settings() == old(self).settings(),
            final(self).given() == old(self).given(),
            final(self).network().setup() == old(self).network().setup(),
            final(self).network().plate_values() == old(self).network().plate_values(),
            final(self).network().memory() == old(self).network().memory(),
            final(self).network().matte() == (
                model::overwritten(old(self).network().matte().0, fgr@),
                model::overwritten(old(self).network().matte().1, pha@),
            ),
            is_put_out(
                old(self).settings(),
                final(self).network().matte(),
                old(self).shown(),
                final(self).shown(),
                done,
            ),
            done is Ok ==> is_composed(
                old(self).settings(),
                final(self).network().matte().0,
                final(self).network().matte().1,
                final(self).shown(),
            ),
            fgr@.len() == old(self).network().matte().0.len() && pha@.len()
                == old(self).network().matte().1.len() ==> final(self).network().matte() == (
                fgr@,
                pha@,
            ),
            done is Ok <==> !(old(self).settings().mode is Image && old(
                self,
            ).settings().background is None),
            done is Err ==> final(self).shown() == old(self).shown(),
    {
        proof {
            model::law_reply_is_kept(old(self).network().matte().0, fgr@);
            model::law_reply_is_kept(old(self).network().matte().1, pha@);
        }
        self.model.finish_bgmv2(fgr, pha);
        self.compose()
    }

    /// The output frame: YUYV, or BGRA in alpha mode.
    pub fn out(&self) -> (out: &[u8])
        ensures
            out@ == self.shown(),
    {
        self.out.as_slice()
    }

    /// Forgets the scene: the next frame starts without temporal memory.
    pub fn reset(&mut self) -> (done: Result<(), PipelineError>)
        ensures
            done is Ok,
            old(self).well_formed() ==> final(self).well_formed(),
            final(self).settings() == old(self).settings(),
            final(self).given() == old(self).given(),
            final(self).shown() == old(self).shown(),
            final(self).composed() == old(self).composed(),
            model::was_reset(old(self).network(), final(self).network()),
    {
        match self.model.reset_state() {
            Ok(_) => Ok(()),
            Err(error) => Err(PipelineError::Matting { error }),
        }
    }
}

/// Whether a foreground gets put out, and how.
pub open spec fn is_put_out(
    settings: Settings,
    matte: (Seq<Single>, Seq<Single>),
    before: Seq<u8>,
    out: Seq<u8>,
    done: Result<(), PipelineError>,
) -> bool {
    if settings.mode is Image && settings.background is None {
        done == Err::<(), PipelineError>(PipelineError::NoBackground) && out == before
    } else {
        done is Ok && shows(settings, matte.0, matte.1, before, out)
    }
}

/// What the reply of RVM does to the network, and whether and how the frame
/// gets put out.
pub open spec fn finishes<T>(
    settings: Settings,
    before: Matting<T>,
    after: Matting<T>,
    fgr: Seq<Single>,
    pha: Seq<Single>,
    states: States<Option<T>>,
    out_before: Seq<u8>,
    out: Seq<u8>,
    done: Result<(), PipelineError>,
) -> bool {
    if states.r1 is Some && states.r2 is Some && states.r3 is Some && states.r4 is Some {
        &&& model::has_finished(before, after, fgr, pha, states, Ok::<(), MattingError>(()))
        &&& is_put_out(settings, after.matte(), out_before, out, done)
    } else {
        &&& done matches Err(PipelineError::Matting { error }) && model::has_finished(
            before,
            after,
            fgr,
            pha,
            states,
            Err::<(), MattingError>(error),
        )
        &&& out == out_before
    }
}

/// Whether each pixel of an interleaved RGB image is the mixture of the
/// foreground with one and the same colour.
pub open spec fn is_over_colour(
    rgb: Seq<u8>,
    fgr: Seq<Single>,
    pha: Seq<Single>,
    plane: int,
    colour: (u8, u8, u8),
) -> bool {
    &&& rgb.len() == 3 * plane
    &&& forall|p: int|
        0 <= p < plane ==> #[trigger] composite::pixel_is_mixture(
            rgb,
            fgr,
            pha,
            plane,
            p,
            colour,
        )
}

/// Whether each pixel of an interleaved RGB image is the mixture of the
/// foreground with the same pixel of another image.
pub open spec fn is_over_image(
    rgb: Seq<u8>,
    fgr: Seq<Single>,
    pha: Seq<Single>,
    plane: int,
    bg: Seq<u8>,
) -> bool {
    &&& rgb.len() == 3 * plane
    &&& forall|p: int|
        0 <= p < plane ==> #[trigger] composite::pixel_is_mixture(
            rgb,
            fgr,
            pha,
            plane,
            p,
            (bg[3 * p], bg[3 * p + 1], bg[3 * p + 2]),
        )
}

/// Whether a YUYV frame holds an interleaved RGB image, pair by pair.
pub open spec fn holds_image(rgb: Seq<u8>, out: Seq<u8>, width: int, height: int) -> bool {
    forall|row: int, pair: int|
        0 <= row < height && 0 <= pair < width / 2 ==> #[trigger] convert::pair_is_packed(
            rgb,
            out,
            width,
            row,
            pair,
        )
}

/// Whether an output frame is the foreground with its alpha in BGRA, or holds
/// the foreground mixed with the key colour or with the background image.
pub open spec fn is_composed(
    settings: Settings,
    fgr: Seq<Single>,
    pha: Seq<Single>,
    out: Seq<u8>,
) -> bool {
    let plane = settings.width * settings.height;
    match settings.mode {
        Mode::Alpha => forall|p: int|
            0 <= p < plane ==> #[trigger] composite::pixel_is_bgra(
                out,
                fgr,
                pha,
                plane,
                p,
                settings.premultiplied,
            ),
        Mode::Greenscreen => exists|rgb: Seq<u8>|
            #[trigger] holds_image(rgb, out, settings.width, settings.height) && is_over_colour(
                rgb,
                fgr,
                pha,
                plane,
                (
                    settings.colour.0 as u8,
                    settings.colour.1 as u8,
                    settings.colour.2 as u8,
                ),
            ),
        Mode::Image => exists|rgb: Seq<u8>|
            #[trigger] holds_image(rgb, out, settings.width, settings.height) && is_over_image(
                rgb,
                fgr,
                pha,
                plane,
                settings.background->0,
            ),
    }
}

proof fn lemma_mixed_at(
    fgr: Seq<Single>,
    pha: Seq<Single>,
    plane: int,
    back: spec_fn(int) -> (nat, nat, nat),
    p: int,
)
    requires
        0 <= p < plane,
    ensures
        composite::rgb_pixel(mixed(fgr, pha, plane, back), p) == composite::opaque(
            convert::planar_pixel(fgr, plane, p),
            pha[p]@,
            back(p),
        ),
{
    reveal(composite::level);
    assert((3 * p) / 3 == p && (3 * p + 1) / 3 == p && (3 * p + 2) / 3 == p);
    assert((3 * p) % 3 == 0 && (3 * p + 1) % 3 == 1 && (3 * p + 2) % 3 == 2);
}

/// What is put out is, in alpha mode, the foreground with its alpha. In the
/// other modes it holds an image each of whose pixels is the mixture of the
/// foreground with what lies behind at that very pixel: with the key colour, or
/// with the background image.
pub proof fn law_composed_frame(
    settings: Settings,
    fgr: Seq<Single>,
    pha: Seq<Single>,
    before: Seq<u8>,
    out: Seq<u8>,
)
    requires
        shows(settings, fgr, pha, before, out),
        settings.colour.0 <= 255 && settings.colour.1 <= 255 && settings.colour.2 <= 255,
        0 <= settings.width,
        0 <= settings.height,
    ensures
        ({
            let plane = settings.width * settings.height;
            match settings.mode {
                Mode::Alpha => forall|p: int|
                    0 <= p < plane ==> #[trigger] composite::pixel_is_bgra(
                        out,
                        fgr,
                        pha,
                        plane,
                        p,
                        settings.premultiplied,
                    ),
                Mode::Greenscreen => exists|rgb: Seq<u8>|
                    #[trigger] holds_image(rgb, out, settings.width, settings.height)
                        && is_over_colour(
                        rgb,
                        fgr,
                        pha,
                        plane,
                        (
                            settings.colour.0 as u8,
                            settings.colour.1 as u8,
                            settings.colour.2 as u8,
                        ),
                    ),
                Mode::Image => exists|rgb: Seq<u8>|
                    #[trigger] holds_image(rgb, out, settings.width, settings.height)
                        && is_over_image(rgb, fgr, pha, plane, settings.background->0),
            }
        }),
{
    let w = settings.width;
    let h = settings.height;
    let plane = w * h;
    assert(plane >= 0) by (nonlinear_arith)
        requires
            plane == w * h,
            w >= 0,
            h >= 0,
    ;
    if settings.mode is Alpha {
        assert forall|p: int| 0 <= p < plane implies #[trigger] composite::pixel_is_bgra(
            out,
            fgr,
            pha,
            plane,
            p,
            settings.premultiplied,
        ) by {
            assert(composite::bgra_pixel(out, p) == composite::transparent(
                convert::planar_pixel(fgr, plane, p),
                pha[p]@,
                settings.premultiplied,
            ));
            composite::law_bgra_pixel(out, fgr, pha, plane, p, settings.premultiplied);
        }
    } else {
        let back = backdrop(settings);
        let rgb = mixed(fgr, pha, plane, back);
        assert forall|row: int, pair: int|
            0 <= row < h && 0 <= pair < w / 2 implies #[trigger] convert::pair_is_packed(
            rgb,
            out,
            w,
            row,
            pair,
        ) by {
            assert(convert::is_packed(rgb, w, h, before, out));
            convert::law_packed_pairs_follow_the_matrix(rgb, w, h, before, out, row, pair);
        }
        assert(holds_image(rgb, out, w, h));
        if settings.mode is Greenscreen {
            let colour = (
                settings.colour.0 as u8,
                settings.colour.1 as u8,
                settings.colour.2 as u8,
            );
            assert forall|p: int| 0 <= p < plane implies #[trigger] composite::pixel_is_mixture(
                rgb,
                fgr,
                pha,
                plane,
                p,
                colour,
            ) by {
                lemma_mixed_at(fgr, pha, plane, back, p);
                composite::law_pixel_is_mixture(rgb, fgr, pha, plane, p, colour);
            }
            assert(is_over_colour(rgb, fgr, pha, plane, colour));
        } else {
            let bg = settings.background->0;
            assert forall|p: int| 0 <= p < plane implies #[trigger] composite::pixel_is_mixture(
                rgb,
                fgr,
                pha,
                plane,
                p,
                (bg[3 * p], bg[3 * p + 1], bg[3 * p + 2]),
            ) by {
                lemma_mixed_at(fgr, pha, plane, back, p);
                composite::law_pixel_is_mixture(
                    rgb,
                    fgr,
                    pha,
                    plane,
                    p,
                    (bg[3 * p], bg[3 * p + 1], bg[3 * p + 2]),
                );
            }
            assert(is_over_image(rgb, fgr, pha, plane, bg));
        }
    }
}

/// The image that lies behind the foreground.
pub open spec fn backdrop_image(settings: Settings) -> Seq<u8> {
    Seq::new(
        (3 * (settings.width * settings.height)) as nat,
        |k: int| pick(backdrop(settings)(k / 3), k % 3) as u8,
    )
}

/// Whether the foreground is gone at a pixel: alpha is zero, and the colour is
/// a number.
pub open spec fn is_gone(fgr: Seq<Single>, pha: Seq<Single>, plane: int, p: int) -> bool {
    let f = convert::planar_pixel(fgr, plane, p);
    pha[p]@.is_zero() && f.0 is Finite && f.1 is Finite && f.2 is Finite
}

proof fn lemma_gone(settings: Settings, fgr: Seq<Single>, pha: Seq<Single>, p: int)
    requires
        0 <= p < settings.width * settings.height,
        is_gone(fgr, pha, settings.width * settings.height, p),
        !(settings.mode is Alpha),
        settings.colour.0 <= 255 && settings.colour.1 <= 255 && settings.colour.2 <= 255,
    ensures
        ({
            let plane = settings.width * settings.height;
            let shown = mixed(fgr, pha, plane, backdrop(settings));
            let image = backdrop_image(settings);
            &&& shown[3 * p] == image[3 * p]
            &&& shown[3 * p + 1] == image[3 * p + 1]
            &&& shown[3 * p + 2] == image[3 * p + 2]
        }),
{
    let plane = settings.width * settings.height;
    let back = backdrop(settings)(p);
    composite::law_transparent_shows_background(
        convert::planar_pixel(fgr, plane, p),
        pha[p]@,
        (back.0 as u8, back.1 as u8, back.2 as u8),
    );
    assert((3 * p) / 3 == p && (3 * p + 1) / 3 == p && (3 * p + 2) / 3 == p);
}

/// Where the foreground is gone from both pixels of a pair, the output is the
/// background as it is: the key colour, or the background image.
pub proof fn law_background_shows_through(
    settings: Settings,
    fgr: Seq<Single>,
    pha: Seq<Single>,
    before: Seq<u8>,
    out: Seq<u8>,
    p: int,
)
    requires
        shows(settings, fgr, pha, before, out),
        !(settings.mode is Alpha),
        settings.colour.0 <= 255 && settings.colour.1 <= 255 && settings.colour.2 <= 255,
        0 < settings.width,
        0 <= p < settings.width * settings.height,
        convert::is_paired(settings.width, p),
        is_gone(
            fgr,
            pha,
            settings.width * settings.height,
            convert::pair_start(settings.width, p),
        ),
        is_gone(
            fgr,
            pha,
            settings.width * settings.height,
            convert::pair_start(settings.width, p) + 1,
        ),
    ensures
        convert::yuyv_pixel(out, p) == convert::packed_pixel(
            backdrop_image(settings),
            settings.width,
            p,
        ),
{
    let w = settings.width;
    let h = settings.height;
    let a = convert::pair_start(w, p);
    convert::lemma_pair_inside(w, h, p);
    lemma_gone(settings, fgr, pha, a);
    lemma_gone(settings, fgr, pha, a + 1);
    assert(p == a || p == a + 1);
}

/// In image mode, where alpha is zero at both pixels of a pair, the output is
/// that pair of the background image itself, packed.
pub proof fn law_image_shows_through(
    settings: Settings,
    bg: Seq<u8>,
    fgr: Seq<Single>,
    pha: Seq<Single>,
    before: Seq<u8>,
    out: Seq<u8>,
    row: int,
    pair: int,
)
    requires
        shows(settings, fgr, pha, before, out),
        settings.mode is Image,
        settings.background == Some(bg),
        bg.len() == 3 * (settings.width * settings.height),
        settings.colour.0 <= 255 && settings.colour.1 <= 255 && settings.colour.2 <= 255,
        0 <= row < settings.height,
        0 <= pair < settings.width / 2,
        ({
            let plane = settings.width * settings.height;
            let a = row * settings.width + 2 * pair;
            &&& pha[a]@.is_zero()
            &&& pha[a + 1]@.is_zero()
            &&& fgr[a]@ is Finite && fgr[plane + a]@ is Finite && fgr[2 * plane + a]@ is Finite
            &&& fgr[a + 1]@ is Finite && fgr[plane + a + 1]@ is Finite && fgr[2 * plane + a + 1]@
                is Finite
        }),
    ensures
        ({
            let a = row * settings.width + 2 * pair;
            &&& convert::yuyv_pixel(out, a) == convert::packed_pixel(bg, settings.width, a)
            &&& convert::yuyv_pixel(out, a + 1) == convert::packed_pixel(
                bg,
                settings.width,
                a + 1,
            )
            &&& convert::pair_is_packed(bg, out, settings.width, row, pair)
        }),
{
    let w = settings.width;
    let h = settings.height;
    let a = row * w + 2 * pair;
    convert::lemma_pair_at(w, h, row, pair);
    law_background_shows_through(settings, fgr, pha, before, out, a);
    law_background_shows_through(settings, fgr, pha, before, out, a + 1);
    let image = backdrop_image(settings);
    assert forall|k: int| 0 <= k < bg.len() implies image[k] == bg[k] by {
        assert(k == 3 * (k / 3) + k % 3);
    }
    assert(image =~= bg);
    convert::lemma_pair_is_packed(bg, w, h, out, row, pair);
}

/// In greenscreen mode, where alpha is zero at both pixels of a pair, the output
/// is the key colour: its luma twice, and its two colour differences.
pub proof fn law_key_colour_shows_through(
    settings: Settings,
    colour: (u8, u8, u8),
    fgr: Seq<Single>,
    pha: Seq<Single>,
    before: Seq<u8>,
    out: Seq<u8>,
    row: int,
    pair: int,
)
    requires
        shows(settings, fgr, pha, before, out),
        settings.mode is Greenscreen,
        settings.colour == (colour.0 as nat, colour.1 as nat, colour.2 as nat),
        0 <= row < settings.height,
        0 <= pair < settings.width / 2,
        ({
            let plane = settings.width * settings.height;
            let a = row * settings.width + 2 * pair;
            &&& pha[a]@.is_zero()
            &&& pha[a + 1]@.is_zero()
            &&& fgr[a]@ is Finite && fgr[plane + a]@ is Finite && fgr[2 * plane + a]@ is Finite
            &&& fgr[a + 1]@ is Finite && fgr[plane + a + 1]@ is Finite && fgr[2 * plane + a + 1]@
                is Finite
        }),
    ensures
        ({
            let a = row * settings.width + 2 * pair;
            let (r, g, b) = colour;
            &&& out[2 * a] == convert::luma(r, g, b).nearest_byte()
            &&& out[2 * a + 1] == convert::chroma_u(r, g, b).nearest_byte()
            &&& out[2 * a + 2] == convert::luma(r, g, b).nearest_byte()
            &&& out[2 * a + 3] == convert::chroma_v(r, g, b).nearest_byte()
            &&& convert::stands_for(
                out[2 * a] as nat,
                256_788 * r + 504_129 * g + 97_906 * b + 16_000_000,
            )
            &&& convert::stands_for(
                out[2 * a + 1] as nat,
                -148_223 * r - 290_993 * g + 439_216 * b + 128_000_000,
            )
            &&& convert::stands_for(
                out[2 * a + 3] as nat,
                439_216 * r - 367_788 * g - 71_427 * b + 128_000_000,
            )
        }),
{
    let w = settings.width;
    let h = settings.height;
    let a = row * w + 2 * pair;
    convert::lemma_pair_at(w, h, row, pair);
    law_background_shows_through(settings, fgr, pha, before, out, a);
    law_background_shows_through(settings, fgr, pha, before, out, a + 1);
    let image = backdrop_image(settings);
    lemma_plain_backdrop(settings, colour, a);
    lemma_plain_backdrop(settings, colour, a + 1);
    lemma_plain_pair(image, out, w, h, row, pair, colour);
    convert::law_sample_follows_the_matrix(colour.0, colour.1, colour.2);
}

proof fn lemma_plain_backdrop(settings: Settings, colour: (u8, u8, u8), p: int)
    requires
        settings.mode is Greenscreen,
        settings.colour == (colour.0 as nat, colour.1 as nat, colour.2 as nat),
        0 <= p < settings.width * settings.height,
    ensures
        backdrop_image(settings)[3 * p] == colour.0,
        backdrop_image(settings)[3 * p + 1] == colour.1,
        backdrop_image(settings)[3 * p + 2] == colour.2,
{
    assert((3 * p) % 3 == 0 && (3 * p + 1) % 3 == 1 && (3 * p + 2) % 3 == 2);
}

/// A pair of one colour is packed into the samples of that colour.
proof fn lemma_plain_pair(
    rgb: Seq<u8>,
    out: Seq<u8>,
    width: int,
    height: int,
    row: int,
    pair: int,
    colour: (u8, u8, u8),
)
    requires
        0 <= row < height,
        0 <= pair < width / 2,
        ({
            let a = row * width + 2 * pair;
            &&& convert::yuyv_pixel(out, a) == convert::packed_pixel(rgb, width, a)
            &&& convert::yuyv_pixel(out, a + 1) == convert::packed_pixel(rgb, width, a + 1)
            &&& rgb[3 * a] == colour.0 && rgb[3 * a + 1] == colour.1 && rgb[3 * a + 2] == colour.2
            &&& rgb[3 * (a + 1)] == colour.0 && rgb[3 * (a + 1) + 1] == colour.1 && rgb[3 * (a + 1)
                + 2] == colour.2
        }),
    ensures
        ({
            let a = row * width + 2 * pair;
            let (r, g, b) = colour;
            &&& out[2 * a] == convert::luma(r, g, b).nearest_byte()
            &&& out[2 * a + 1] == convert::chroma_u(r, g, b).nearest_byte()
            &&& out[2 * a + 2] == convert::luma(r, g, b).nearest_byte()
            &&& out[2 * a + 3] == convert::chroma_v(r, g, b).nearest_byte()
        }),
{
    let a = row * width + 2 * pair;
    convert::lemma_pair_at(width, height, row, pair);
    let (r, g, b) = colour;
    let u = convert::chroma_u(r, g, b).nearest_byte();
    let v = convert::chroma_v(r, g, b).nearest_byte();
    assert(3 * a + 3 == 3 * (a + 1));
    assert((u + u) / 2 == u && (v + v) / 2 == v);
    assert(convert::packed_pixel(rgb, width, a) == (convert::luma(r, g, b).nearest_byte(), u));
    assert(convert::packed_pixel(rgb, width, a + 1) == (convert::luma(r, g, b).nearest_byte(), v));
}

/// Where a frame of odd width has no pair, the output stays what it was.
pub proof fn law_last_column_is_left(
    settings: Settings,
    fgr: Seq<Single>,
    pha: Seq<Single>,
    before: Seq<u8>,
    out: Seq<u8>,
    row: int,
)
    requires
        shows(settings, fgr, pha, before, out),
        !(settings.mode is Alpha),
        settings.width > 0,
        settings.width % 2 == 1,
        0 <= row < settings.height,
    ensures
        ({
            let p = row * settings.width + settings.width - 1;
            out[2 * p] == before[2 * p] && out[2 * p + 1] == before[2 * p + 1]
        }),
{
    let w = settings.width;
    let h = settings.height;
    let p = row * w + w - 1;
    convert::lemma_position(w, row, w - 1);
    assert(0 <= row * w && row * w + w <= w * h) by (nonlinear_arith)
        requires
            0 <= row,
            row + 1 <= h,
            w > 0,
    ;
    assert(convert::yuyv_pixel(out, p) == convert::yuyv_pixel(before, p));
}

/// What a plate of the wrong size is answered.
pub open spec fn plate_refusal(path: Seq<char>, plate: Picture, width: u32, height: u32) -> Seq<
    char,
> {
    "background plate "@ + path + " is "@ + capture::size_text(plate.width, plate.height)
        + " but the camera is "@ + capture::size_text(width, height)
        + "; capture a new one with `matting capture-plate`"@
}

/// Convert a background plate to the model's NCHW layout. The plate must match
/// the capture resolution exactly: it is compared pixel-for-pixel against each
/// frame.
pub fn load_plate(path: &str, plate: &Picture, width: u32, height: u32) -> (values: Result<
    Vec<Single>,
    String,
>)
    requires
        plate.well_formed(),
    ensures
        match values {
            Ok(v) => plate.width == width && plate.height == height && v@.len() == 3 * (width
                * height) && forall|p: int|
                0 <= p < width * height ==> #[trigger] convert::planar_pixel(
                    v@,
                    width * height,
                    p,
                ) == normalized_pixel(plate.rgb@, p),
            Err(e) => !(plate.width == width && plate.height == height) && e@ == plate_refusal(
                path@,
                *plate,
                width,
                height,
            ),
        },
        values matches Ok(v) ==> forall|p: int|
            0 <= p < width * height ==> #[trigger] is_normalized_at(
                plate.rgb@,
                v@,
                width * height,
                p,
            ),
{
    if plate.width != width || plate.height != height {
        let message = "background plate ".to_owned().concat(path).concat(" is ").concat(
            capture::size(plate.width, plate.height).as_str(),
        ).concat(" but the camera is ").concat(capture::size(width, height).as_str()).concat(
            "; capture a new one with `matting capture-plate`",
        );
        return Err(message);
    }
    assert(plate.rgb@.len() == plate.rgb.len());
    let plane = plate.rgb.len() / 3;
    let mut values = vec![Single::from_bits(0); plane * 3];
    let mut i: usize = 0;
    while i < plane
        invariant
            i <= plane,
            3 * plane <= usize::MAX,
            plate.rgb@.len() == 3 * plane,
            values@.len() == 3 * plane,
            forall|p: int|
                0 <= p < i ==> #[trigger] convert::planar_pixel(values@, plane as int, p)
                    == normalized_pixel(plate.rgb@, p),
        decreases plane - i,
    {
        let rgb = [plate.rgb[3 * i], plate.rgb[3 * i + 1], plate.rgb[3 * i + 2]];
        convert::put_planar(values.as_mut_slice(), plane, i, rgb);
        i = i + 1;
    }
    proof {
        assert forall|p: int| 0 <= p < plane implies #[trigger] is_normalized_at(
            plate.rgb@,
            values@,
            plane as int,
            p,
        ) by {
            law_plate_is_normalized(plate.rgb@, values@, plane as int, p);
        }
    }
    Ok(values)
}

/// Whether pixel `p` of a planar image holds the channels of that pixel of an
/// interleaved one, each divided by 255.
pub open spec fn is_normalized_at(
    rgb: Seq<u8>,
    values: Seq<Single>,
    plane: int,
    p: int,
) -> bool {
    &&& values[p]@ == Number::ratio(rgb[3 * p] as nat, 255)
    &&& values[plane + p]@ == Number::ratio(rgb[3 * p + 1] as nat, 255)
    &&& values[2 * plane + p]@ == Number::ratio(rgb[3 * p + 2] as nat, 255)
}

/// A loaded plate holds the numbers nearest to the bytes of the picture divided
/// by 255: all red ones, then all green ones and all blue ones.
pub proof fn law_plate_is_normalized(rgb: Seq<u8>, values: Seq<Single>, plane: int, p: int)
    requires
        convert::planar_pixel(values, plane, p) == normalized_pixel(rgb, p),
    ensures
        values[p]@ == Number::ratio(rgb[3 * p] as nat, 255),
        values[plane + p]@ == Number::ratio(rgb[3 * p + 1] as nat, 255),
        values[2 * plane + p]@ == Number::ratio(rgb[3 * p + 2] as nat, 255),
{
    convert::law_normalized(rgb[3 * p]);
    convert::law_normalized(rgb[3 * p + 1]);
    convert::law_normalized(rgb[3 * p + 2]);
}

/// The channels of a pixel of an interleaved RGB image, normalized.
pub open spec fn normalized_pixel(rgb: Seq<u8>, p: int) -> (Number, Number, Number) {
    (
        convert::normalized(rgb[3 * p] as nat),
        convert::normalized(rgb[3 * p + 1] as nat),
        convert::normalized(rgb[3 * p + 2] as nat),
    )
}

/// The colour of a pixel of a YUYV frame, in bytes. A pixel without a pair is
/// black.
pub open spec fn frame_pixel(yuyv: Seq<u8>, width: int, p: int) -> (nat, nat, nat) {
    if convert::is_paired(width, p) {
        let pair = 2 * convert::pair_start(width, p);
        let y = yuyv[2 * p];
        let u = yuyv[pair + 1];
        let v = yuyv[pair + 3];
        (
            convert::red(y, u, v).nearest_byte(),
            convert::green(y, u, v).nearest_byte(),
            convert::blue(y, u, v).nearest_byte(),
        )
    } else {
        (0, 0, 0)
    }
}

proof fn lemma_shown_byte(n: nat)
    requires
        n <= 255,
    ensures
        composite::level(convert::normalized(n)) == n,
{
    reveal(composite::level);
    convert::law_normalized_reads_back(n as u8);
}

/// The interleaved RGB image of a captured frame, to be kept as a background
/// plate.
pub fn plate_from_frame(yuyv: &[u8], width: usize, height: usize) -> (rgb: Vec<u8>)
    requires
        yuyv@.len() == 2 * (width * height),
        3 * (width * height) <= usize::MAX,
    ensures
        rgb@.len() == 3 * (width * height),
        forall|p: int|
            0 <= p < width * height ==> #[trigger] composite::rgb_pixel(rgb@, p) == frame_pixel(
                yuyv@,
                width as int,
                p,
            ),
        forall|row: int, pair: int|
            0 <= row < height && 0 <= pair < width as int / 2 ==> #[trigger] pair_is_kept(
                yuyv@,
                rgb@,
                width as int,
                row,
                pair,
            ),
{
    let plane = width * height;
    let mut values = vec![Single::from_bits(0); plane * 3];
    let ghost zeros = values@;
    convert::yuyv_to_rgb_f32_nchw(yuyv, width, height, values.as_mut_slice());
    let mut rgb = vec![0u8; plane * 3];
    let mut i: usize = 0;
    while i < plane
        invariant
            i <= plane,
            plane == width * height,
            3 * plane <= usize::MAX,
            values@.len() == 3 * plane,
            zeros.len() == 3 * plane,
            forall|j: int| 0 <= j < zeros.len() ==> zeros[j].bits == 0,
            rgb@.len() == 3 * plane,
            forall|p: int|
                0 <= p < plane ==> #[trigger] convert::planar_pixel(values@, plane as int, p)
                    == if convert::is_paired(width as int, p) {
                    convert::colour_of(yuyv@, width as int, p)
                } else {
                    convert::planar_pixel(zeros, plane as int, p)
                },
            forall|p: int|
                0 <= p < i ==> #[trigger] composite::rgb_pixel(rgb@, p) == frame_pixel(
                    yuyv@,
                    width as int,
                    p,
                ),
        decreases plane - i,
    {
        proof {
            let now = convert::planar_pixel(values@, plane as int, i as int);
            if convert::is_paired(width as int, i as int) {
                let (r, g, b) = frame_pixel(yuyv@, width as int, i as int);
                lemma_byte_range(yuyv@, width as int, i as int);
                lemma_shown_byte(r);
                lemma_shown_byte(g);
                lemma_shown_byte(b);
            } else {
                assert(Number::of_bits(0) == Number::zero());
                composite::lemma_level_of_zero(Number::zero());
            }
        }
        composite::put_rgb(
            rgb.as_mut_slice(),
            i,
            composite::to_u8(values[i]),
            composite::to_u8(values[plane + i]),
            composite::to_u8(values[2 * plane + i]),
        );
        i = i + 1;
    }
    proof {
        let w = width as int;
        let h = height as int;
        assert forall|row: int, pair: int|
            0 <= row < h && 0 <= pair < w / 2 implies #[trigger] pair_is_kept(
            yuyv@,
            rgb@,
            w,
            row,
            pair,
        ) by {
            law_plate_follows_the_matrix(yuyv@, rgb@, w, h, row, pair);
        }
    }
    rgb
}

/// Whether two pixels of an interleaved RGB image have the colours of a pair of
/// a YUYV frame.
pub open spec fn pair_is_kept(
    yuyv: Seq<u8>,
    rgb: Seq<u8>,
    width: int,
    row: int,
    pair: int,
) -> bool {
    let a = row * width + 2 * pair;
    let u = yuyv[2 * a + 1] - 128;
    let v = yuyv[2 * a + 3] - 128;
    let first = 1_164_383 * (yuyv[2 * a] - 16);
    let second = 1_164_383 * (yuyv[2 * a + 2] - 16);
    &&& convert::stands_for(rgb[3 * a] as nat, first + 1_596_027 * v)
    &&& convert::stands_for(rgb[3 * a + 1] as nat, first - 391_762 * u - 812_968 * v)
    &&& convert::stands_for(rgb[3 * a + 2] as nat, first + 2_017_232 * u)
    &&& convert::stands_for(rgb[3 * a + 3] as nat, second + 1_596_027 * v)
    &&& convert::stands_for(rgb[3 * a + 4] as nat, second - 391_762 * u - 812_968 * v)
    &&& convert::stands_for(rgb[3 * a + 5] as nat, second + 2_017_232 * u)
}

/// A plate that is kept from a frame has, at both pixels of each pair, the
/// colours that BT.601 gives for the four bytes of the pair.
pub proof fn law_plate_follows_the_matrix(
    yuyv: Seq<u8>,
    rgb: Seq<u8>,
    width: int,
    height: int,
    row: int,
    pair: int,
)
    requires
        forall|p: int|
            0 <= p < width * height ==> #[trigger] composite::rgb_pixel(rgb, p) == frame_pixel(
                yuyv,
                width,
                p,
            ),
        0 <= row < height,
        0 <= pair < width / 2,
    ensures
        ({
            let a = row * width + 2 * pair;
            let u = yuyv[2 * a + 1] - 128;
            let v = yuyv[2 * a + 3] - 128;
            let first = 1_164_383 * (yuyv[2 * a] - 16);
            let second = 1_164_383 * (yuyv[2 * a + 2] - 16);
            &&& convert::stands_for(rgb[3 * a] as nat, first + 1_596_027 * v)
            &&& convert::stands_for(rgb[3 * a + 1] as nat, first - 391_762 * u - 812_968 * v)
            &&& convert::stands_for(rgb[3 * a + 2] as nat, first + 2_017_232 * u)
            &&& convert::stands_for(rgb[3 * a + 3] as nat, second + 1_596_027 * v)
            &&& convert::stands_for(rgb[3 * a + 4] as nat, second - 391_762 * u - 812_968 * v)
            &&& convert::stands_for(rgb[3 * a + 5] as nat, second + 2_017_232 * u)
        }),
{
    let a = row * width + 2 * pair;
    convert::lemma_pair_at(width, height, row, pair);
    assert(composite::rgb_pixel(rgb, a) == frame_pixel(yuyv, width, a));
    assert(composite::rgb_pixel(rgb, a + 1) == frame_pixel(yuyv, width, a + 1));
    let u = yuyv[2 * a + 1];
    let v = yuyv[2 * a + 3];
    convert::law_colour_follows_the_matrix(yuyv[2 * a], u, v);
    convert::law_colour_follows_the_matrix(yuyv[2 * a + 2], u, v);
}

proof fn lemma_byte_range(yuyv: Seq<u8>, width: int, p: int)
    ensures
        frame_pixel(yuyv, width, p).0 <= 255,
        frame_pixel(yuyv, width, p).1 <= 255,
        frame_pixel(yuyv, width, p).2 <= 255,
{
}

/// A plate that is kept from a frame and loaded again is, pixel for pixel, what
/// the network gets for that frame.
pub proof fn law_plate_matches_its_frame(
    yuyv: Seq<u8>,
    width: int,
    rgb: Seq<u8>,
    p: int,
)
    requires
        convert::is_paired(width, p),
        composite::rgb_pixel(rgb, p) == frame_pixel(yuyv, width, p),
    ensures
        normalized_pixel(rgb, p) == convert::colour_of(yuyv, width, p),
{
}

/// The size of a plate to capture: that of the prepared model, or the project
/// default, so that a plate can be captured before a model is prepared.
pub fn plate_size(prepared: Option<(u32, u32)>) -> (size: (u32, u32))
    ensures
        size == match prepared {
            Some(s) => s,
            None => (1024u32, 576u32),
        },
{
    match prepared {
        Some(s) => s,
        None => (1024, 576),
    }
}

/// What to do about a background plate.
#[derive(Debug, Clone, Copy, PartialEq, Eq, Structural)]
pub enum PlatePlan {
    /// The model needs the plate that was given.
    Load,
    /// A plate was given, but the model takes none.
    Ignore,
    Nothing,
}

pub open spec fn missing_plate_text(input: Seq<char>) -> Seq<char> {
    "the prepared model is BackgroundMattingV2, which needs a background plate.\nCapture one with:  matting capture-plate --input "@
        + input + " --output background.png\nthen pass it with --plate background.png"@
}

/// Decides about the plate. Only BackgroundMattingV2 needs one, and does not
/// run without.
pub fn plan_plate(arch: Arch, given: bool, input: &str) -> (plan: Result<PlatePlan, String>)
    ensures
        match (arch, given) {
            (Arch::Bgmv2, true) => plan matches Ok(p) && p == PlatePlan::Load,
            (Arch::Bgmv2, false) => plan matches Err(e) && e@ == missing_plate_text(input@),
            (Arch::Rvm, true) => plan matches Ok(p) && p == PlatePlan::Ignore,
            (Arch::Rvm, false) => plan matches Ok(p) && p == PlatePlan::Nothing,
        },
{
    match arch {
        Arch::Bgmv2 => {
            if given {
                Ok(PlatePlan::Load)
            } else {
                let message =
                    "the prepared model is BackgroundMattingV2, which needs a background plate.\nCapture one with:  matting capture-plate --input ".to_owned().concat(
                    input,
                ).concat(" --output background.png\nthen pass it with --plate background.png");
                Err(message)
            }
        },
        Arch::Rvm => {
            if given {
                Ok(PlatePlan::Ignore)
            } else {
                Ok(PlatePlan::Nothing)
            }
        },
    }
}

/// What has to be said of the output of a mode. Only OBS shows transparency.
pub fn mode_note(mode: Mode) -> (note: Option<&'static str>)
    ensures
        match (mode, note) {
            (Mode::Alpha, Some(text)) => text@
                == "Note: alpha output is only displayed correctly by OBS. Browsers, Zoom and Discord need --mode greenscreen or --mode image."@,
            (Mode::Greenscreen, None) => true,
            (Mode::Image, None) => true,
            _ => false,
        },
{
    match mode {
        Mode::Alpha => Some(
            "Note: alpha output is only displayed correctly by OBS. Browsers, Zoom and Discord need --mode greenscreen or --mode image.",
        ),
        Mode::Greenscreen | Mode::Image => None,
    }
}

/// What is said when streaming starts.
pub fn announcement(
    width: u32,
    height: u32,
    mode: Mode,
    input: &str,
    output: &str,
) -> (line: String)
    ensures
        line@ == "Streaming "@ + capture::size_text(width, height) + " "@ + mode.shown()
            + " from "@ + input@ + " to "@ + output@ + " as "@ + sink::mode_code_text(mode),
{
    "Streaming ".to_owned().concat(capture::size(width, height).as_str()).concat(" ").concat(
        mode.shown_name(),
    ).concat(" from ").concat(input).concat(" to ").concat(output).concat(" as ").concat(
        sink::fourcc_text(mode),
    )
}

/// Where a frame of odd width has no pair, the plate that is kept from it is
/// black.
pub proof fn law_plate_is_black_without_a_pair(
    yuyv: Seq<u8>,
    rgb: Seq<u8>,
    width: int,
    height: int,
    row: int,
)
    requires
        forall|p: int|
            0 <= p < width * height ==> #[trigger] composite::rgb_pixel(rgb, p) == frame_pixel(
                yuyv,
                width,
                p,
            ),
        width > 0,
        width % 2 == 1,
        0 <= row < height,
    ensures
        ({
            let p = row * width + width - 1;
            rgb[3 * p] == 0 && rgb[3 * p + 1] == 0 && rgb[3 * p + 2] == 0
        }),
{
    let p = row * width + width - 1;
    convert::lemma_position(width, row, width - 1);
    assert(0 <= row * width && row * width + width <= width * height) by (nonlinear_arith)
        requires
            0 <= row,
            row + 1 <= height,
            width > 0,
    ;
    assert(composite::rgb_pixel(rgb, p) == frame_pixel(yuyv, width, p));
}

} // verus!
