//! Putting a matted foreground on a background.

use crate::cli::Fit;
use crate::convert;
use crate::number;
use crate::number::Number;
use crate::precision;
use crate::rounding;
use crate::single::Single;
use vstd::arithmetic::div_mod;
use vstd::arithmetic::power2;
use vstd::prelude::*;

verus! {

/// The byte for a level between 0 and 1.
#[verifier::opaque]
pub open spec fn level(v: Number) -> nat {
    v.times(Number::whole(255)).nearest_byte()
}

/// The byte for `f` scaled by `scale`.
#[verifier::opaque]
pub open spec fn shaded(f: Number, scale: Number) -> nat {
    level(f.times(scale))
}

/// `f` over `back`, with coverage `alpha`.
#[verifier::opaque]
pub open spec fn blended(f: Number, alpha: Number, back: Number) -> Number {
    f.times(alpha).plus(back.times(Number::whole(1).minus(alpha)))
}

/// The four bytes of pixel `p` in an interleaved BGRA image.
pub open spec fn bgra_pixel(image: Seq<u8>, p: int) -> (nat, nat, nat, nat) {
    (
        image[4 * p] as nat,
        image[4 * p + 1] as nat,
        image[4 * p + 2] as nat,
        image[4 * p + 3] as nat,
    )
}

/// The three bytes of pixel `p` in an interleaved RGB image.
pub open spec fn rgb_pixel(image: Seq<u8>, p: int) -> (nat, nat, nat) {
    (image[3 * p] as nat, image[3 * p + 1] as nat, image[3 * p + 2] as nat)
}

/// A foreground colour and its alpha, in BGRA order.
pub open spec fn transparent(
    f: (Number, Number, Number),
    alpha: Number,
    premultiplied: bool,
) -> (nat, nat, nat, nat) {
    let scale = if premultiplied {
        alpha
    } else {
        Number::whole(1)
    };
    (shaded(f.2, scale), shaded(f.1, scale), shaded(f.0, scale), level(alpha))
}

/// A foreground colour over an opaque one.
pub open spec fn opaque(
    f: (Number, Number, Number),
    alpha: Number,
    back: (nat, nat, nat),
) -> (nat, nat, nat) {
    (
        level(blended(f.0, alpha, convert::normalized(back.0))),
        level(blended(f.1, alpha, convert::normalized(back.1))),
        level(blended(f.2, alpha, convert::normalized(back.2))),
    )
}

pub(crate) fn to_u8(v: Single) -> (byte: u8)
    ensures
        byte == level(v@),
{
    proof {
        reveal(level);
    }
    convert::clamp_u8(v.times(Single::from_u32(255)))
}

fn shade(f: Single, scale: Single) -> (byte: u8)
    ensures
        byte == shaded(f@, scale@),
{
    proof {
        reveal(shaded);
    }
    to_u8(f.times(scale))
}

/// Writes one pixel of an interleaved BGRA image.
fn put_bgra(out: &mut [u8], p: usize, b: u8, g: u8, r: u8, a: u8)
    requires
        4 * p + 3 < old(out)@.len() <= usize::MAX,
    ensures
        final(out)@.len() == old(out)@.len(),
        bgra_pixel(final(out)@, p as int) == (b as nat, g as nat, r as nat, a as nat),
        forall|q: int|
            0 <= q < p ==> #[trigger] bgra_pixel(final(out)@, q) == bgra_pixel(old(out)@, q),
{
    out[4 * p] = b;
    out[4 * p + 1] = g;
    out[4 * p + 2] = r;
    out[4 * p + 3] = a;
}

/// Writes one pixel of an interleaved RGB image.
pub(crate) fn put_rgb(out: &mut [u8], p: usize, r: u8, g: u8, b: u8)
    requires
        3 * p + 2 < old(out)@.len() <= usize::MAX,
    ensures
        final(out)@.len() == old(out)@.len(),
        rgb_pixel(final(out)@, p as int) == (r as nat, g as nat, b as nat),
        forall|q: int|
            0 <= q < p ==> #[trigger] rgb_pixel(final(out)@, q) == rgb_pixel(old(out)@, q),
{
    out[3 * p] = r;
    out[3 * p + 1] = g;
    out[3 * p + 2] = b;
}

/// Planar float foreground + alpha -> interleaved BGRA8, preserving alpha.
/// This is the only mode that carries true transparency.
///
/// RVM's foreground prediction is only meaningful where alpha is non-zero; in
/// the background it holds a smeared inpainting of the scene. A compositor that
/// treats the stream as premultiplied (OBS does) would draw that garbage over
/// the background, so premultiplying is the default: it forces transparent
/// pixels to black and makes the output well-defined either way.
pub fn to_bgra(
    fgr: &[Single],
    pha: &[Single],
    plane: usize,
    premultiplied: bool,
    out: &mut [u8],
)
    requires
        fgr@.len() >= 3 * plane,
        pha@.len() >= plane,
        old(out)@.len() == 4 * plane,
    ensures
        final(out)@.len() == old(out)@.len(),
        forall|p: int|
            0 <= p < plane ==> #[trigger] bgra_pixel(final(out)@, p) == transparent(
                convert::planar_pixel(fgr@, plane as int, p),
                pha@[p]@,
                premultiplied,
            ),
        forall|p: int|
            0 <= p < plane ==> #[trigger] pixel_is_bgra(
                final(out)@,
                fgr@,
                pha@,
                plane as int,
                p,
                premultiplied,
            ),
{
    assert(out@.len() == out.len());
    let mut i: usize = 0;
    while i < plane
        invariant
            i <= plane,
            4 * plane <= usize::MAX,
            fgr@.len() >= 3 * plane,
            pha@.len() >= plane,
            out@.len() == 4 * plane,
            forall|p: int|
                0 <= p < i ==> #[trigger] bgra_pixel(out@, p) == transparent(
                    convert::planar_pixel(fgr@, plane as int, p),
                    pha@[p]@,
                    premultiplied,
                ),
        decreases plane - i,
    {
        let a = pha[i];
        let scale = if premultiplied {
            a
        } else {
            Single::from_u32(1)
        };
        put_bgra(
            out,
            i,
            shade(fgr[2 * plane + i], scale),
            shade(fgr[plane + i], scale),
            shade(fgr[i], scale),
            to_u8(a),
        );
        i = i + 1;
    }
    proof {
        assert forall|p: int| 0 <= p < plane implies #[trigger] pixel_is_bgra(
            out@,
            fgr@,
            pha@,
            plane as int,
            p,
            premultiplied,
        ) by {
            assert(bgra_pixel(out@, p) == transparent(
                convert::planar_pixel(fgr@, plane as int, p),
                pha@[p]@,
                premultiplied,
            ));
            law_bgra_pixel(out@, fgr@, pha@, plane as int, p, premultiplied);
        }
    }
}

/// Blends one channel over a background byte.
fn blend(f: Single, a: Single, back: u8) -> (byte: u8)
    ensures
        byte == level(blended(f@, a@, convert::normalized(back as nat))),
{
    proof {
        reveal(blended);
        reveal(convert::normalized);
    }
    let b = Single::from_u32(back as u32).over(Single::from_u32(255));
    to_u8(f.times(a).plus(b.times(Single::from_u32(1).minus(a))))
}

/// `out = fgr*pha + colour*(1-pha)`, interleaved RGB8.
pub fn over_color(
    fgr: &[Single],
    pha: &[Single],
    plane: usize,
    colour: [u8; 3],
    out: &mut [u8],
)
    requires
        fgr@.len() >= 3 * plane,
        pha@.len() >= plane,
        old(out)@.len() == 3 * plane,
    ensures
        final(out)@.len() == old(out)@.len(),
        forall|p: int|
            0 <= p < plane ==> #[trigger] rgb_pixel(final(out)@, p) == opaque(
                convert::planar_pixel(fgr@, plane as int, p),
                pha@[p]@,
                (colour[0] as nat, colour[1] as nat, colour[2] as nat),
            ),
        forall|p: int|
            0 <= p < plane ==> #[trigger] pixel_is_mixture(
                final(out)@,
                fgr@,
                pha@,
                plane as int,
                p,
                (colour[0], colour[1], colour[2]),
            ),
{
    assert(out@.len() == out.len());
    let mut i: usize = 0;
    while i < plane
        invariant
            i <= plane,
            3 * plane <= usize::MAX,
            fgr@.len() >= 3 * plane,
            pha@.len() >= plane,
            out@.len() == 3 * plane,
            forall|p: int|
                0 <= p < i ==> #[trigger] rgb_pixel(out@, p) == opaque(
                    convert::planar_pixel(fgr@, plane as int, p),
                    pha@[p]@,
                    (colour[0] as nat, colour[1] as nat, colour[2] as nat),
                ),
        decreases plane - i,
    {
        let a = pha[i];
        put_rgb(
            out,
            i,
            blend(fgr[i], a, colour[0]),
            blend(fgr[plane + i], a, colour[1]),
            blend(fgr[2 * plane + i], a, colour[2]),
        );
        i = i + 1;
    }
    proof {
        let back = (colour[0], colour[1], colour[2]);
        assert forall|p: int| 0 <= p < plane implies #[trigger] pixel_is_mixture(
            out@,
            fgr@,
            pha@,
            plane as int,
            p,
            back,
        ) by {
            assert(rgb_pixel(out@, p) == opaque(
                convert::planar_pixel(fgr@, plane as int, p),
                pha@[p]@,
                (back.0 as nat, back.1 as nat, back.2 as nat),
            ));
            law_pixel_is_mixture(out@, fgr@, pha@, plane as int, p, back);
        }
    }
}

/// `out = fgr*pha + bg*(1-pha)`, interleaved RGB8. `bg` is interleaved RGB8.
pub fn over_image(fgr: &[Single], pha: &[Single], plane: usize, bg: &[u8], out: &mut [u8])
    requires
        fgr@.len() >= 3 * plane,
        pha@.len() >= plane,
        bg@.len() == 3 * plane,
        old(out)@.len() == 3 * plane,
    ensures
        final(out)@.len() == old(out)@.len(),
        forall|p: int|
            0 <= p < plane ==> #[trigger] rgb_pixel(final(out)@, p) == opaque(
                convert::planar_pixel(fgr@, plane as int, p),
                pha@[p]@,
                rgb_pixel(bg@, p),
            ),
        forall|p: int|
            0 <= p < plane ==> #[trigger] pixel_is_mixture(
                final(out)@,
                fgr@,
                pha@,
                plane as int,
                p,
                (bg@[3 * p], bg@[3 * p + 1], bg@[3 * p + 2]),
            ),
{
    assert(out@.len() == out.len());
    let mut i: usize = 0;
    while i < plane
        invariant
            i <= plane,
            3 * plane <= usize::MAX,
            fgr@.len() >= 3 * plane,
            pha@.len() >= plane,
            bg@.len() == 3 * plane,
            out@.len() == 3 * plane,
            forall|p: int|
                0 <= p < i ==> #[trigger] rgb_pixel(out@, p) == opaque(
                    convert::planar_pixel(fgr@, plane as int, p),
                    pha@[p]@,
                    rgb_pixel(bg@, p),
                ),
        decreases plane - i,
    {
        let a = pha[i];
        put_rgb(
            out,
            i,
            blend(fgr[i], a, bg[3 * i]),
            blend(fgr[plane + i], a, bg[3 * i + 1]),
            blend(fgr[2 * plane + i], a, bg[3 * i + 2]),
        );
        i = i + 1;
    }
    proof {
        assert forall|p: int| 0 <= p < plane implies #[trigger] pixel_is_mixture(
            out@,
            fgr@,
            pha@,
            plane as int,
            p,
            (bg@[3 * p], bg@[3 * p + 1], bg@[3 * p + 2]),
        ) by {
            assert(rgb_pixel(out@, p) == opaque(
                convert::planar_pixel(fgr@, plane as int, p),
                pha@[p]@,
                rgb_pixel(bg@, p),
            ));
            law_pixel_is_mixture(
                out@,
                fgr@,
                pha@,
                plane as int,
                p,
                (bg@[3 * p], bg@[3 * p + 1], bg@[3 * p + 2]),
            );
        }
    }
}

/// A decoded picture, interleaved RGB8, row by row from the top.
#[derive(Debug)]
pub struct Picture {
    pub width: u32,
    pub height: u32,
    pub rgb: Vec<u8>,
}

impl Picture {
    pub open spec fn well_formed(&self) -> bool {
        self.rgb@.len() == 3 * (self.width * self.height)
    }
}

/// How much a source has to grow along one axis to reach the target.
pub open spec fn growth(source: u32, target: u32) -> Number {
    Number::whole(target as nat).over(Number::whole(source as nat))
}

/// The size to which a picture is scaled before it is cut or centred.
pub open spec fn scaled_size_spec(
    source: (u32, u32),
    target: (u32, u32),
    fit: Fit,
) -> (nat, nat) {
    let across = growth(source.0, target.0);
    let down = growth(source.1, target.1);
    let w = Number::whole(source.0 as nat);
    let h = Number::whole(source.1 as nat);
    match fit {
        Fit::Stretch => (target.0 as nat, target.1 as nat),
        Fit::Cover => {
            let scale = across.larger(down);
            (w.times(scale).ceil_word(), h.times(scale).ceil_word())
        },
        Fit::Contain => {
            let scale = across.smaller(down);
            (at_least_one(w.times(scale).floor_word()), at_least_one(h.times(scale).floor_word()))
        },
    }
}

pub open spec fn at_least_one(n: nat) -> nat {
    if n == 0 {
        1
    } else {
        n
    }
}

/// Whether a scaled picture lies over the target, or inside it.
pub open spec fn is_placed(size: (nat, nat), target: (u32, u32), fit: Fit) -> bool {
    match fit {
        Fit::Stretch => size == (target.0 as nat, target.1 as nat),
        Fit::Cover => target.0 <= size.0 && target.1 <= size.1,
        Fit::Contain => size.0 <= target.0 && size.1 <= target.1,
    }
}

/// Whether scaling needs no resampling: there is nothing to sample from, or the
/// size stays.
pub open spec fn is_kept(source: (u32, u32), size: (nat, nat)) -> bool {
    source.0 == 0 || source.1 == 0 || size == (source.0 as nat, source.1 as nat)
}

/// Whether the resampler keeps track of pixel positions along an axis: up to
/// 2^20 pixels of the source. Where they are brought down to a side of up to
/// 2^16, with up to 2^18 of them for each pixel of it, there may be more, as long
/// as binary32 numbers still tell them apart.
pub open spec fn can_follow(source: nat, target: nat) -> bool {
    source <= 0x10_0000 || (source < 0x100_0000 && target <= 0x1_0000 && source <= 0x4_0000
        * target)
}

/// Whether a picture can be resampled: along both axes, and what is held in
/// between has to fit into memory.
pub open spec fn can_resample(source: (u32, u32), size: (nat, nat)) -> bool {
    &&& can_follow(source.0 as nat, size.0)
    &&& can_follow(source.1 as nat, size.1)
    &&& 16 * (source.0 * size.1) <= isize::MAX
}

/// Whether a picture can be brought onto the target: the scaled picture has to
/// lie over it or inside it, and all buffers have to fit into memory.
pub open spec fn drawable(source: (u32, u32), target: (u32, u32), fit: Fit) -> bool {
    let size = scaled_size_spec(source, target, fit);
    &&& is_kept(source, size) || can_resample(source, size)
    &&& 3 * (size.0 * size.1) <= isize::MAX
    &&& 3 * (target.0 * target.1) <= isize::MAX
    &&& is_placed(size, target, fit)
}

/// Byte `k` of the target when the scaled picture, of width `sw`, covers it
/// from `x`, `y` on.
pub open spec fn cut_byte(scaled: Seq<u8>, sw: int, w: int, x: int, y: int, k: int) -> u8 {
    let p = k / 3;
    scaled[3 * ((p / w + y) * sw + (p % w + x)) + k % 3]
}

/// Byte `k` of the target when the scaled picture lies inside it at `x`, `y`.
pub open spec fn inset_byte(
    scaled: Seq<u8>,
    size: (int, int),
    w: int,
    x: int,
    y: int,
    k: int,
) -> u8 {
    let p = k / 3;
    let col = p % w - x;
    let row = p / w - y;
    if 0 <= col < size.0 && 0 <= row < size.1 {
        scaled[3 * (row * size.0 + col) + k % 3]
    } else {
        0
    }
}

/// The size of the scaled picture.
pub open spec fn fitted_size(source: (u32, u32), target: (u32, u32), fit: Fit) -> (int, int) {
    let (sw, sh) = scaled_size_spec(source, target, fit);
    (sw as int, sh as int)
}

/// A scaled picture, brought to the size of the target.
pub open spec fn fitted(
    scaled: Seq<u8>,
    size: (int, int),
    target: (u32, u32),
    fit: Fit,
) -> Seq<u8> {
    let w = target.0 as int;
    let h = target.1 as int;
    match fit {
        Fit::Stretch => scaled,
        Fit::Cover => Seq::new(
            (3 * (w * h)) as nat,
            |k: int| cut_byte(scaled, size.0, w, (size.0 - w) / 2, (size.1 - h) / 2, k),
        ),
        Fit::Contain => Seq::new(
            (3 * (w * h)) as nat,
            |k: int| inset_byte(scaled, size, w, (w - size.0) / 2, (h - size.1) / 2, k),
        ),
    }
}

/// Whether pixel `c` of a side is within reach of pixel `x` of that side once it
/// is scaled from `source` to `target` pixels. With the pixels laid over each
/// other, the filter reaches two pixels of the coarser side each way. Two pixels
/// of the source are added for rounding, and more where the side is so long that
/// positions on it are rounded more.
pub open spec fn is_near(c: int, x: int, source: int, target: int) -> bool {
    let coarser = if source > target {
        source
    } else {
        target
    };
    let reach = 4 * coarser + 4 * target * (1 + source / 0x10_0000);
    -reach <= (2 * c + 1) * target - (2 * x + 1) * source <= reach
}

/// Whether so few pixels of the source are averaged along a side that rounding
/// does not change a level.
pub open spec fn keeps_levels(source: nat, target: nat) -> bool {
    0 < source && (source <= 4096 || (source <= 0x10_0000 && source <= 1000 * target))
}

/// Whether a scaled level is near the one that is averaged: not off by more than
/// half of it.
pub open spec fn is_about(scaled: u8, v: u8) -> bool {
    2 * (scaled - v) <= v + 1 && 2 * (v - scaled) <= v + 1
}

/// Channel `ch` of a pixel.
pub open spec fn byte_at(picture: Picture, column: int, row: int, ch: int) -> u8 {
    picture.rgb@[3 * (row * picture.width + column) + ch]
}

/// Whether a channel is `v` in every pixel that is within reach of pixel `x`, `y`
/// of the scaled picture.
pub open spec fn is_flat_around(
    picture: Picture,
    size: (nat, nat),
    x: int,
    y: int,
    ch: int,
    v: u8,
) -> bool {
    forall|column: int, row: int|
        0 <= column < picture.width && 0 <= row < picture.height && is_near(
            column,
            x,
            picture.width as int,
            size.0 as int,
        ) && is_near(row, y, picture.height as int, size.1 as int) ==> #[trigger] byte_at(
            picture,
            column,
            row,
            ch,
        ) == v
}

/// Whether some bytes can be a picture, scaled to a size. A picture that has the
/// size already is itself, and nothing scaled is black. Each scaled pixel is an
/// average of what is within reach of it: where all of that is one level, so is
/// the scaled pixel, or about that level where very many pixels are averaged.
/// Which average it is, is left open.
pub open spec fn is_scaled(picture: Picture, size: (nat, nat), scaled: Seq<u8>) -> bool {
    &&& scaled.len() == 3 * (size.0 * size.1)
    &&& 0 < picture.width && 0 < picture.height ==> forall|x: int, y: int, ch: int, v: u8|
        0 <= x < size.0 && 0 <= y < size.1 && 0 <= ch < 3 && #[trigger] is_flat_around(
            picture,
            size,
            x,
            y,
            ch,
            v,
        ) ==> {
            let level = scaled[3 * (y * size.0 + x) + ch];
            if keeps_levels(picture.width as nat, size.0) && keeps_levels(
                picture.height as nat,
                size.1,
            ) {
                level == v
            } else {
                is_about(level, v)
            }
        }
    &&& size == (picture.width as nat, picture.height as nat) ==> scaled == picture.rgb@
    &&& picture.width == 0 || picture.height == 0 ==> forall|i: int|
        0 <= i < scaled.len() ==> scaled[i] == 0
}

/// `image::imageops::resize` with the Catmull-Rom filter. It returns a picture
/// of the wanted size. One that has this size already is copied, and one
/// without pixels gives a black picture. Otherwise the weights for a pixel are
/// divided by their own sum, so a level that is the same all over their reach
/// stays what it is, but for rounding. There are about four weights for each
/// pixel of the source that falls on one of the result, never more than the side
/// has, and each adds about three roundings of one part in 2^24. Up to 4096
/// weights on each axis that comes to less than half a level, and for as many as
/// are admitted here to less than half of what the level is. What comes of
/// different levels is not stated: the weights are computed with `powi`, whose
/// precision may differ from call to call. Larger pictures than are admitted
/// here can make the sum of the weights vanish, which the division does not
/// survive.
#[verifier::external_body]
fn resize(picture: &Picture, width: u32, height: u32) -> (rgb: Vec<u8>)
    requires
        picture.well_formed(),
        is_kept((picture.width, picture.height), (width as nat, height as nat)) || can_resample(
            (picture.width, picture.height),
            (width as nat, height as nat),
        ),
        3 * (width * height) <= isize::MAX,
    ensures
        is_scaled(*picture, (width as nat, height as nat), rgb@),
{
    let source = image::ImageBuffer::<image::Rgb<u8>, &[u8]>::from_raw(
        picture.width,
        picture.height,
        picture.rgb.as_slice(),
    ).unwrap();
    image::imageops::resize(&source, width, height, image::imageops::FilterType::CatmullRom)
        .into_raw()
}

/// The size to which a picture is scaled before it is cut or centred.
pub fn scaled_size(source: (u32, u32), target: (u32, u32), fit: Fit) -> (size: (u32, u32))
    ensures
        (size.0 as nat, size.1 as nat) == scaled_size_spec(source, target, fit),
{
    let w = Single::from_u32(source.0);
    let h = Single::from_u32(source.1);
    match fit {
        Fit::Stretch => target,
        Fit::Cover => {
            let across = Single::from_u32(target.0).over(w);
            let down = Single::from_u32(target.1).over(h);
            let scale = across.larger(down);
            (w.times(scale).ceil_word(), h.times(scale).ceil_word())
        },
        Fit::Contain => {
            let across = Single::from_u32(target.0).over(w);
            let down = Single::from_u32(target.1).over(h);
            let scale = across.smaller(down);
            let sw = w.times(scale).floor_word();
            let sh = h.times(scale).floor_word();
            (
                if sw == 0 {
                    1
                } else {
                    sw
                },
                if sh == 0 {
                    1
                } else {
                    sh
                },
            )
        },
    }
}

/// `factor * a * b`, which no buffer length comes near to exceeding.
fn volume(factor: u128, a: u32, b: u32) -> (n: u128)
    requires
        factor <= 16,
    ensures
        n == factor * (a * b),
{
    proof {
        assert(a * b <= 0xffff_ffff * 0xffff_ffff) by (nonlinear_arith)
            requires
                a <= 0xffff_ffff,
                b <= 0xffff_ffff,
        ;
        let n = a * b;
        assert(factor * n <= 16 * n) by (nonlinear_arith)
            requires
                factor <= 16,
                n >= 0,
        ;
    }
    factor * ((a as u128) * (b as u128))
}

fn follows(source: u32, target: u32) -> (yes: bool)
    ensures
        yes == can_follow(source as nat, target as nat),
{
    source <= 0x10_0000 || (source < 0x100_0000 && target <= 0x1_0000 && source as u64 <= 0x4_0000
        * target as u64)
}

/// Whether `Background::load` takes a picture of this size.
pub fn is_drawable(source: (u32, u32), target: (u32, u32), fit: Fit) -> (yes: bool)
    ensures
        yes == drawable(source, target, fit),
{
    let (sw, sh) = scaled_size(source, target, fit);
    let limit = isize::MAX as u128;
    let kept = source.0 == 0 || source.1 == 0 || (sw == source.0 && sh == source.1);
    let sampled = follows(source.0, sw) && follows(source.1, sh) && volume(16, source.0, sh)
        <= limit;
    let placed = match fit {
        Fit::Stretch => true,
        Fit::Cover => target.0 <= sw && target.1 <= sh,
        Fit::Contain => sw <= target.0 && sh <= target.1,
    };
    (kept || sampled) && volume(3, sw, sh) <= limit && volume(3, target.0, target.1) <= limit
        && placed
}

/// Pixel `p` of an area of width `w` and height `h`, moved into a larger one.
proof fn lemma_moved(p: int, w: int, h: int, x: int, y: int, sw: int, sh: int)
    requires
        0 <= p < w * h,
        0 <= w,
        0 <= x,
        0 <= y,
        x + w <= sw,
        y + h <= sh,
    ensures
        0 <= p / w < h,
        0 <= p % w < w,
        0 <= (p / w + y) * sw,
        (p / w + y) * sw + (p % w + x) < sw * sh,
{
    assert(w > 0) by (nonlinear_arith)
        requires
            0 <= p < w * h,
            0 <= w,
    ;
    let row = p / w;
    div_mod::lemma_fundamental_div_mod(p, w);
    div_mod::lemma_mod_bound(p, w);
    assert(0 <= row < h) by (nonlinear_arith)
        requires
            0 <= p < w * h,
            w > 0,
            row == p / w,
    ;
    assert(0 <= (row + y) * sw && (row + y) * sw + sw <= sw * sh) by (nonlinear_arith)
        requires
            0 <= row + y,
            row + y + 1 <= sh,
            sw >= 0,
    ;
}

/// Cuts the target out of the middle of a scaled picture.
fn cut(scaled: &Vec<u8>, size: (u32, u32), target: (u32, u32)) -> (rgb: Vec<u8>)
    requires
        scaled@.len() == 3 * (size.0 * size.1),
        target.0 <= size.0,
        target.1 <= size.1,
    ensures
        rgb@ == fitted(scaled@, (size.0 as int, size.1 as int), target, Fit::Cover),
{
    let sw = size.0 as usize;
    let w = target.0 as usize;
    let h = target.1 as usize;
    let x = ((size.0 - target.0) / 2) as usize;
    let y = ((size.1 - target.1) / 2) as usize;
    assert(scaled@.len() == scaled.len());
    proof {
        assert(w * h <= size.0 * size.1) by (nonlinear_arith)
            requires
                w <= size.0,
                h <= size.1,
        ;
    }
    let total: usize = 3 * (w * h);
    let ghost spec_size = (size.0 as int, size.1 as int);
    let mut rgb: Vec<u8> = Vec::new();
    let mut k: usize = 0;
    while k < total
        invariant
            k <= total,
            total == 3 * (w * h),
            sw == size.0,
            w == target.0,
            h == target.1,
            x == (size.0 - target.0) / 2,
            y == (size.1 - target.1) / 2,
            x + w <= sw,
            y + h <= size.1,
            scaled@.len() == 3 * (size.0 * size.1),
            scaled@.len() <= usize::MAX,
            rgb@.len() == k,
            forall|j: int|
                0 <= j < k ==> rgb@[j] == #[trigger] cut_byte(
                    scaled@,
                    sw as int,
                    w as int,
                    x as int,
                    y as int,
                    j,
                ),
        decreases total - k,
    {
        let p = k / 3;
        proof {
            lemma_moved(
                p as int,
                w as int,
                h as int,
                x as int,
                y as int,
                sw as int,
                size.1 as int,
            );
        }
        rgb.push(scaled[3 * ((p / w + y) * sw + (p % w + x)) + k % 3]);
        k = k + 1;
    }
    assert(rgb@ =~= fitted(scaled@, spec_size, target, Fit::Cover));
    rgb
}

/// Lays a scaled picture into the middle of a black target.
fn inset(scaled: &Vec<u8>, size: (u32, u32), target: (u32, u32)) -> (rgb: Vec<u8>)
    requires
        scaled@.len() == 3 * (size.0 * size.1),
        size.0 <= target.0,
        size.1 <= target.1,
        3 * (target.0 * target.1) <= usize::MAX,
    ensures
        rgb@ == fitted(scaled@, (size.0 as int, size.1 as int), target, Fit::Contain),
{
    let sw = size.0 as usize;
    let sh = size.1 as usize;
    let w = target.0 as usize;
    let h = target.1 as usize;
    let x = ((target.0 - size.0) / 2) as usize;
    let y = ((target.1 - size.1) / 2) as usize;
    assert(scaled@.len() == scaled.len());
    let total: usize = 3 * (w * h);
    let ghost spec_size = (size.0 as int, size.1 as int);
    let mut rgb: Vec<u8> = Vec::new();
    let mut k: usize = 0;
    while k < total
        invariant
            k <= total,
            total == 3 * (w * h),
            spec_size == (sw as int, sh as int),
            x + sw <= w,
            y + sh <= h,
            scaled@.len() == 3 * (sw * sh),
            scaled@.len() <= usize::MAX,
            rgb@.len() == k,
            forall|j: int|
                0 <= j < k ==> rgb@[j] == #[trigger] inset_byte(
                    scaled@,
                    spec_size,
                    w as int,
                    x as int,
                    y as int,
                    j,
                ),
        decreases total - k,
    {
        let p = k / 3;
        proof {
            lemma_moved(p as int, w as int, h as int, 0, 0, w as int, h as int);
        }
        let col = p % w;
        let row = p / w;
        let byte = if x <= col && col - x < sw && y <= row && row - y < sh {
            proof {
                let r = row - y;
                assert(0 <= r * sw && r * sw + sw <= sw * sh) by (nonlinear_arith)
                    requires
                        0 <= r,
                        r + 1 <= sh,
                        sw >= 0,
                ;
            }
            scaled[3 * ((row - y) * sw + (col - x)) + k % 3]
        } else {
            0
        };
        rgb.push(byte);
        k = k + 1;
    }
    assert(rgb@ =~= fitted(scaled@, spec_size, target, Fit::Contain));
    rgb
}

/// Brings a scaled picture to the size of the target.
pub fn place(scaled: Vec<u8>, size: (u32, u32), target: (u32, u32), fit: Fit) -> (rgb: Vec<u8>)
    requires
        scaled@.len() == 3 * (size.0 * size.1),
        is_placed((size.0 as nat, size.1 as nat), target, fit),
        3 * (target.0 * target.1) <= usize::MAX,
    ensures
        rgb@ == fitted(scaled@, (size.0 as int, size.1 as int), target, fit),
        rgb@.len() == 3 * (target.0 * target.1),
        match fit {
            Fit::Stretch => rgb@ == scaled@,
            Fit::Cover => forall|x: int, y: int, ch: int|
                0 <= x < target.0 && 0 <= y < target.1 && 0 <= ch < 3 ==> #[trigger] is_cut_at(
                    scaled@,
                    (size.0 as int, size.1 as int),
                    rgb@,
                    target,
                    x,
                    y,
                    ch,
                ),
            Fit::Contain => forall|x: int, y: int, ch: int|
                0 <= x < target.0 && 0 <= y < target.1 && 0 <= ch < 3 ==> #[trigger] is_inset_at(
                    scaled@,
                    (size.0 as int, size.1 as int),
                    rgb@,
                    target,
                    x,
                    y,
                    ch,
                ),
        },
{
    proof {
        let sides = (size.0 as int, size.1 as int);
        let covered = fitted(scaled@, sides, target, Fit::Cover);
        let contained = fitted(scaled@, sides, target, Fit::Contain);
        if fit == Fit::Cover {
            assert forall|x: int, y: int, ch: int|
                0 <= x < target.0 && 0 <= y < target.1 && 0 <= ch < 3 implies #[trigger] is_cut_at(
                scaled@,
                sides,
                covered,
                target,
                x,
                y,
                ch,
            ) by {
                law_cover_cuts_the_middle(scaled@, sides, target, x, y, ch);
            }
        }
        if fit == Fit::Contain {
            assert forall|x: int, y: int, ch: int|
                0 <= x < target.0 && 0 <= y < target.1 && 0 <= ch
                    < 3 implies #[trigger] is_inset_at(
                scaled@,
                sides,
                contained,
                target,
                x,
                y,
                ch,
            ) by {
                law_contain_centres_on_black(scaled@, sides, target, x, y, ch);
            }
        }
    }
    match fit {
        Fit::Stretch => scaled,
        Fit::Cover => cut(&scaled, size, target),
        Fit::Contain => inset(&scaled, size, target),
    }
}

/// A background image pre-resized to the capture resolution, so the per-frame
/// cost is only the blend.
#[derive(Debug)]
pub struct Background {
    rgb: Vec<u8>,
}

impl Background {
    /// The interleaved RGB8 pixels.
    pub closed spec fn pixels(&self) -> Seq<u8> {
        self.rgb@
    }

    /// Brings a decoded picture to the capture resolution.
    pub fn load(picture: &Picture, width: u32, height: u32, fit: Fit) -> (background: Background)
        requires
            picture.well_formed(),
            drawable((picture.width, picture.height), (width, height), fit),
        ensures
            exists|scaled: Seq<u8>|
                #[trigger] is_scaled(
                    *picture,
                    scaled_size_spec((picture.width, picture.height), (width, height), fit),
                    scaled,
                ) && background.pixels() == fitted(
                    scaled,
                    fitted_size((picture.width, picture.height), (width, height), fit),
                    (width, height),
                    fit,
                ),
            background.pixels().len() == 3 * (width * height),
            width == picture.width && height == picture.height ==> background.pixels()
                == picture.rgb@,
    {
        let size = scaled_size((picture.width, picture.height), (width, height), fit);
        let scaled = resize(picture, size.0, size.1);
        let ghost before = scaled@;
        let rgb = place(scaled, size, (width, height), fit);
        proof {
            let source = (picture.width, picture.height);
            assert(is_scaled(*picture, scaled_size_spec(source, (width, height), fit), before));
            if source == (width, height) {
                if size == source {
                    lemma_fitted_same(width, height, fit, picture.rgb@);
                } else if width > 0 && height > 0 {
                    law_same_size(width, height, fit, picture.rgb@);
                } else {
                    assert(3 * (width * height) == 0) by (nonlinear_arith)
                        requires
                            width == 0 || height == 0,
                    ;
                    assert(rgb@ =~= picture.rgb@);
                }
            }
        }
        Background { rgb }
    }

    pub fn rgb(&self) -> (rgb: &[u8])
        ensures
            rgb@ == self.pixels(),
    {
        self.rgb.as_slice()
    }
}

/// The two sides of a growth: how far it is from the exact ratio, relatively.
proof fn lemma_growth(source: u32, target: u32)
    requires
        0 < source <= 0x10_0000,
        0 < target <= 0x10_0000,
    ensures
        growth(source, target) matches Number::Finite { negative, units } && !negative
            && 0x100_0000 * (units * source - target * precision::one()) <= target
            * precision::one() && 0x100_0000 * (target * precision::one() - units * source)
            <= target * precision::one(),
{
    let one = precision::one();
    precision::lemma_one();
    precision::lemma_whole(source as nat);
    precision::lemma_whole(target as nat);
    let n = (target * one) as nat;
    let d = source as nat;
    rounding::lemma_rounded_scales(n, d, one as nat);
    assert(n / d >= 0x80_0000) by (nonlinear_arith)
        requires
            n >= one,
            0 < d <= 0x10_0000,
            one == precision::one(),
    ;
    precision::lemma_rounded_relative(n, d);
    let units = rounding::rounded(n, d);
    assert(units <= 2 * n) by (nonlinear_arith)
        requires
            0x100_0000 * (units * d - n) <= n,
            d > 0,
    ;
    power2::lemma_pow2_adds(149, 22);
    power2::lemma2_to64();
    power2::lemma_pow2_strictly_increases(171, 277);
}

/// One side of a picture, scaled by about `target / source`.
proof fn lemma_scaled_side(source: u32, target: u32, scale: Number)
    requires
        0 < source <= 0x10_0000,
        0 < target <= 0x10_0000,
        scale is Finite,
        !scale.is_negative(),
        scale->units >= 0x80_0000,
    ensures
        !scale.exceeds(growth(source, target)) ==> Number::whole(source as nat).times(
            scale,
        ).floor_word() <= target,
        !growth(source, target).exceeds(scale) ==> Number::whole(source as nat).times(
            scale,
        ).ceil_word() >= target,
{
    let one = precision::one();
    let s = scale->units;
    let a = growth(source, target)->units;
    let side = Number::whole(source as nat).times(scale);
    precision::lemma_one();
    precision::lemma_whole(source as nat);
    lemma_growth(source, target);
    let exact = source as nat * s;
    assert((source * one) * s == exact * one) by (nonlinear_arith)
        requires
            exact == source * s,
    ;
    rounding::lemma_rounded_scales(exact, 1, one as nat);
    let got = rounding::rounded(exact, 1);
    assert(exact / 1 == exact);
    assert(exact >= s) by (nonlinear_arith)
        requires
            exact == source * s,
            source >= 1,
            s >= 0,
    ;
    precision::lemma_rounded_relative(exact, 1);
    assert(side == Number::bounded(false, got));
    let limit = target * one;
    if s <= a {
        assert(exact <= a * source) by (nonlinear_arith)
            requires
                exact == source * s,
                s <= a,
                source >= 0,
        ;
        assert(got < limit + one);
        assert(got / one as nat <= target) by (nonlinear_arith)
            requires
                got < target * one + one,
                one == precision::one(),
        ;
        power2::lemma_pow2_adds(149, 22);
        power2::lemma2_to64();
        power2::lemma_pow2_strictly_increases(171, 277);
    }
    if s >= a {
        assert(exact >= a * source) by (nonlinear_arith)
            requires
                exact == source * s,
                s >= a,
                source >= 0,
        ;
        assert(got > limit - one);
        assert((got + one - 1) as nat / one as nat >= target) by (nonlinear_arith)
            requires
                got >= target * one - one + 1,
                one == precision::one(),
        ;
    }
}

/// A picture that is scaled to cover the target is at least as large as it on
/// both sides, and one that is scaled to be contained is at most as large: for
/// every picture and every target of up to 2^20 pixels a side.
pub proof fn law_scaled_size(source: (u32, u32), target: (u32, u32))
    requires
        0 < source.0 <= 0x10_0000,
        0 < source.1 <= 0x10_0000,
        0 < target.0 <= 0x10_0000,
        0 < target.1 <= 0x10_0000,
    ensures
        scaled_size_spec(source, target, Fit::Cover).0 >= target.0,
        scaled_size_spec(source, target, Fit::Cover).1 >= target.1,
        1 <= scaled_size_spec(source, target, Fit::Contain).0 <= target.0,
        1 <= scaled_size_spec(source, target, Fit::Contain).1 <= target.1,
        scaled_size_spec(source, target, Fit::Stretch) == (target.0 as nat, target.1 as nat),
{
    lemma_growth(source.0, target.0);
    lemma_growth(source.1, target.1);
    let across = growth(source.0, target.0);
    let down = growth(source.1, target.1);
    let a = across->units;
    let d = down->units;
    assert(a >= 0x80_0000) by (nonlinear_arith)
        requires
            0x100_0000 * (target.0 * precision::one() - a * source.0) <= target.0
                * precision::one(),
            target.0 >= 1,
            0 < source.0 <= 0x10_0000,
    ;
    assert(d >= 0x80_0000) by (nonlinear_arith)
        requires
            0x100_0000 * (target.1 * precision::one() - d * source.1) <= target.1
                * precision::one(),
            target.1 >= 1,
            0 < source.1 <= 0x10_0000,
    ;
    let large = across.larger(down);
    let small = across.smaller(down);
    lemma_scaled_side(source.0, target.0, large);
    lemma_scaled_side(source.1, target.1, large);
    lemma_scaled_side(source.0, target.0, small);
    lemma_scaled_side(source.1, target.1, small);
}

proof fn lemma_same_side(n: u32)
    requires
        0 < n < 0x100_0000,
    ensures
        growth(n, n) == Number::whole(1),
        Number::whole(n as nat).times(Number::whole(1)).ceil_word() == n,
        Number::whole(n as nat).times(Number::whole(1)).floor_word() == n,
{
    let one = precision::one();
    precision::lemma_one();
    precision::lemma_whole(n as nat);
    precision::lemma_whole(1);
    rounding::lemma_rounded_scales(one as nat, 1, n as nat);
    rounding::lemma_rounded_scales((one * n) as nat, n as nat, one as nat);
    assert(1 * (n as nat) == n);
    rounding::lemma_rounded_scales((n * one) as nat, 1, one as nat);
}

proof fn lemma_fitted_same(width: u32, height: u32, fit: Fit, rgb: Seq<u8>)
    requires
        rgb.len() == 3 * (width * height),
    ensures
        fitted(rgb, (width as int, height as int), (width, height), fit) == rgb,
{
    let w = width as int;
    let h = height as int;
    assert forall|k: int| 0 <= k < rgb.len() implies cut_byte(rgb, w, w, 0, 0, k) == rgb[k]
        && inset_byte(rgb, (w, h), w, 0, 0, k) == rgb[k] by {
        let p = k / 3;
        lemma_moved(p, w, h, 0, 0, w, h);
        div_mod::lemma_fundamental_div_mod(p, w);
        assert(w * (p / w) == (p / w) * w) by (nonlinear_arith);
    }
    assert(fitted(rgb, (w, h), (width, height), fit) =~= rgb);
}

/// A picture that has the size of the target is neither scaled nor moved: for
/// every size below 2^24 pixels a side.
pub proof fn law_same_size(width: u32, height: u32, fit: Fit, rgb: Seq<u8>)
    requires
        0 < width < 0x100_0000,
        0 < height < 0x100_0000,
        rgb.len() == 3 * (width * height),
    ensures
        scaled_size_spec((width, height), (width, height), fit) == (width as nat, height as nat),
        fitted(rgb, (width as int, height as int), (width, height), fit) == rgb,
{
    lemma_same_side(width);
    lemma_same_side(height);
    lemma_fitted_same(width, height, fit, rgb);
}

pub proof fn lemma_level_of_zero(v: Number)
    requires
        v is Nan || v.is_zero(),
    ensures
        level(v) == 0,
{
    reveal(level);
    precision::lemma_whole(255);
    if v.is_zero() {
        lemma_times_zero(v, Number::whole(255));
        precision::lemma_nearest_byte(v.times(Number::whole(255)), 0);
    }
}

/// A product with a zero is a zero, or NaN where the other factor is not finite.
proof fn lemma_times_zero(a: Number, b: Number)
    requires
        a.is_zero() || b.is_zero(),
    ensures
        a is Finite && b is Finite ==> a.times(b).is_zero(),
        !(a is Finite && b is Finite) ==> a.times(b) is Nan,
{
    if a is Finite && b is Finite {
        let ua = a->units;
        let ub = b->units;
        assert(ua * ub == 0) by (nonlinear_arith)
            requires
                ua == 0 || ub == 0,
        ;
        power2::lemma_pow2_pos(149);
        power2::lemma_pow2_pos(277);
        number::lemma_rounded_zero(power2::pow2(149));
    }
}

/// Premultiplying forces transparent pixels to black, whatever the foreground
/// holds there: not even an infinity or a NaN shows.
pub proof fn law_transparent_is_black(f: (Number, Number, Number), alpha: Number)
    requires
        alpha.is_zero(),
    ensures
        transparent(f, alpha, true) == (0nat, 0nat, 0nat, 0nat),
{
    reveal(shaded);
    lemma_times_zero(f.0, alpha);
    lemma_times_zero(f.1, alpha);
    lemma_times_zero(f.2, alpha);
    lemma_level_of_zero(f.0.times(alpha));
    lemma_level_of_zero(f.1.times(alpha));
    lemma_level_of_zero(f.2.times(alpha));
    lemma_level_of_zero(alpha);
}

proof fn lemma_times_one(f: Single)
    ensures
        f@.times(Number::whole(1)) == f@,
{
    precision::lemma_whole(1);
    precision::lemma_one();
    if f@ is Finite {
        let units = f@->units;
        precision::lemma_pattern_exact(f.bits);
        rounding::lemma_rounded_scales(units, 1, precision::one() as nat);
    }
}

proof fn lemma_blended_opaque(f: Single, back: u8)
    ensures
        level(blended(f@, Number::whole(1), convert::normalized(back as nat))) == level(f@),
{
    reveal(blended);
    let one = Number::whole(1);
    let none = one.minus(one);
    let b = convert::normalized(back as nat);
    precision::lemma_whole(1);
    precision::lemma_plus_whole(one, one.negated(), 0);
    lemma_times_one(f);
    convert::law_normalized(back);
    lemma_times_zero(b, none);
    let rest = b.times(none);
    if f@ is Finite {
        precision::lemma_pattern_exact(f.bits);
        if f@.is_zero() {
            lemma_level_of_zero(f@);
            lemma_level_of_zero(f@.plus(rest));
        } else {
            assert(f@.plus(rest) == f@);
        }
    } else {
        assert(f@.plus(rest) == f@);
    }
}

/// Where alpha is one, only the foreground shows, in every mode.
pub proof fn law_opaque_is_foreground(
    f: (Single, Single, Single),
    back: (u8, u8, u8),
    premultiplied: bool,
)
    ensures
        opaque(
            (f.0@, f.1@, f.2@),
            Number::whole(1),
            (back.0 as nat, back.1 as nat, back.2 as nat),
        ) == (level(f.0@), level(f.1@), level(f.2@)),
        transparent((f.0@, f.1@, f.2@), Number::whole(1), premultiplied) == (
            level(f.2@),
            level(f.1@),
            level(f.0@),
            255nat,
        ),
{
    reveal(shaded);
    lemma_blended_opaque(f.0, back.0);
    lemma_blended_opaque(f.1, back.1);
    lemma_blended_opaque(f.2, back.2);
    lemma_times_one(f.0);
    lemma_times_one(f.1);
    lemma_times_one(f.2);
    reveal(level);
    convert::law_normalized(255);
    convert::law_normalized_reads_back(255);
    rounding::lemma_rounded_scales(precision::one() as nat, 1, 255);
    precision::lemma_one();
}

proof fn lemma_blended_transparent(f: Number, alpha: Number, back: u8)
    requires
        f is Finite,
        alpha.is_zero(),
    ensures
        level(blended(f, alpha, convert::normalized(back as nat))) == back,
{
    reveal(blended);
    reveal(level);
    let one = Number::whole(1);
    let full = Number::whole(255);
    let b = convert::normalized(back as nat);
    precision::lemma_whole(1);
    precision::lemma_whole(255);
    convert::law_normalized(back);
    lemma_times_zero(f, alpha);
    precision::lemma_plus_whole(one, alpha.negated(), 1);
    let kept = one.minus(alpha);
    let units = b->units;
    assert(units * precision::one() < 1024 * precision::one() * precision::one())
        by (nonlinear_arith)
        requires
            units <= precision::one(),
    ;
    precision::lemma_times_close(b, kept);
    let shown = b.times(kept);
    assert(b.signed() * kept.signed() == units * precision::one()) by (nonlinear_arith)
        requires
            b.signed() == units,
            kept.signed() == precision::one(),
    ;
    let mixed = f.times(alpha).plus(shown);
    precision::lemma_plus_close(f.times(alpha), shown);
    let m = mixed.signed();
    assert(mixed->units * full->units < 1024 * precision::one() * precision::one())
        by (nonlinear_arith)
        requires
            mixed->units <= 2 * precision::one(),
            full->units == 255 * precision::one(),
    ;
    precision::lemma_times_close(mixed, full);
    assert(m * full.signed() == (255 * m) * precision::one()) by (nonlinear_arith)
        requires
            full.signed() == 255 * precision::one(),
    ;
    precision::lemma_nearest_byte(mixed.times(full), back as int);
}

/// What `f * alpha + back / 255 * (1 - alpha)` comes to for levels from 0 to 1:
/// 255 times as much, in squared units.
pub open spec fn exact_blend(f: Number, alpha: Number, back: u8) -> int {
    255 * (f.signed() * alpha.signed()) + back * (precision::one() * (precision::one()
        - alpha.signed()))
}

/// A level from 0 to 1.
pub open spec fn is_level(v: Number) -> bool {
    v is Finite && 0 <= v.signed() <= precision::one()
}

/// Blending follows the formula: for levels from 0 to 1 the byte that comes out
/// is off by no more than 0.501 from the exact mixture.
pub proof fn law_blend_follows_the_formula(f: Number, alpha: Number, back: u8)
    requires
        is_level(f),
        is_level(alpha),
    ensures
        ({
            let byte = level(blended(f, alpha, convert::normalized(back as nat)));
            let unit = precision::one() * precision::one();
            &&& 1000 * (byte * unit - exact_blend(f, alpha, back)) <= 501 * unit
            &&& 1000 * (exact_blend(f, alpha, back) - byte * unit) <= 501 * unit
        }),
{
    reveal(blended);
    reveal(level);
    let one = precision::one();
    let fine = precision::fine();
    let whole = Number::whole(1);
    let full = Number::whole(255);
    let b = convert::normalized(back as nat);
    precision::lemma_whole(1);
    precision::lemma_whole(255);
    convert::law_normalized(back);
    let x = f.signed();
    let a = alpha.signed();
    let w = b.signed();
    // The foreground's share.
    assert(f->units * alpha->units <= 2 * one * one) by (nonlinear_arith)
        requires
            f->units <= one,
            alpha->units <= one,
            one == precision::one(),
    ;
    precision::lemma_times_fine(f, alpha);
    let front = f.times(alpha);
    assert(0 <= x * a <= one * one) by (nonlinear_arith)
        requires
            0 <= x <= one,
            0 <= a <= one,
    ;
    // The background's share.
    precision::lemma_plus_fine(whole, alpha.negated());
    let kept = whole.minus(alpha);
    let k = kept.signed();
    assert(b->units * kept->units <= 2 * one * one) by (nonlinear_arith)
        requires
            b->units <= one,
            kept->units <= 2 * one,
            one == precision::one(),
    ;
    precision::lemma_times_fine(b, kept);
    let behind = b.times(kept);
    assert(-one * fine <= w * k - w * (one - a) <= one * fine) by (nonlinear_arith)
        requires
            0 <= w <= one,
            -fine <= k - (one - a) <= fine,
    ;
    assert(0 <= w * (one - a) <= one * one) by (nonlinear_arith)
        requires
            0 <= w <= one,
            0 <= one - a <= one,
    ;
    // Their sum, scaled.
    precision::lemma_plus_fine(front, behind);
    let mixed = front.plus(behind);
    let m = mixed.signed();
    assert(mixed->units * full->units < 1024 * one * one) by (nonlinear_arith)
        requires
            mixed->units <= 3 * one,
            full->units == 255 * one,
            one == precision::one(),
    ;
    precision::lemma_times_close(mixed, full);
    let scaled = mixed.times(full);
    assert(m * full.signed() == (255 * m) * one) by (nonlinear_arith)
        requires
            full.signed() == 255 * one,
    ;
    precision::lemma_nearest_byte_close(scaled);
    // The background's byte, over 255.
    assert(-255 * fine * one <= 255 * (w * (one - a)) - (back * one) * (one - a) <= 255 * fine
        * one) by (nonlinear_arith)
        requires
            -255 * fine <= 255 * w - back * one <= 255 * fine,
            0 <= one - a <= one,
    ;
    assert((back * one) * (one - a) == back * (one * (one - a))) by (nonlinear_arith);
    let byte = level(blended(f, alpha, b)) as int;
    let target = exact_blend(f, alpha, back);
    assert(one * one == precision::one() * precision::one());
    // `scaled` is within 0.001 of the target, and the byte within one half of it,
    // unless it is clamped.
    assert(1000 * (scaled.signed() * one - target) <= one * one && 1000 * (target - scaled.signed()
        * one) <= one * one);
    assert(0 <= target <= 255 * (one * one)) by (nonlinear_arith)
        requires
            target == 255 * (x * a) + back * (one * (one - a)),
            0 <= x <= one,
            0 <= a <= one,
            0 <= back <= 255,
    ;
}

/// Where alpha is zero, only the background shows, exactly as it is.
pub proof fn law_transparent_shows_background(
    f: (Number, Number, Number),
    alpha: Number,
    back: (u8, u8, u8),
)
    requires
        f.0 is Finite,
        f.1 is Finite,
        f.2 is Finite,
        alpha.is_zero(),
    ensures
        opaque(f, alpha, (back.0 as nat, back.1 as nat, back.2 as nat)) == (
            back.0 as nat,
            back.1 as nat,
            back.2 as nat,
        ),
{
    lemma_blended_transparent(f.0, alpha, back.0);
    lemma_blended_transparent(f.1, alpha, back.1);
    lemma_blended_transparent(f.2, alpha, back.2);
}

/// A larger level does not give a smaller byte.
proof fn lemma_level_ordered(v: Number, w: Number)
    requires
        v is Finite,
        is_level(w),
        v.signed() <= w.signed(),
    ensures
        level(v) <= level(w),
{
    reveal(level);
    let full = Number::whole(255);
    precision::lemma_one();
    precision::lemma_whole(255);
    power2::lemma_pow2_pos(149);
    let p = power2::pow2(149);
    let a = v->units;
    let b = w->units;
    assert(b * full->units < 1024 * precision::one() * precision::one()) by (nonlinear_arith)
        requires
            b <= precision::one(),
            full->units == 255 * precision::one(),
    ;
    precision::lemma_times_close(w, full);
    if v.is_negative() || a == 0 {
        if a == 0 {
            lemma_level_of_zero(v);
        }
    } else {
        assert(a * full->units <= b * full->units) by (nonlinear_arith)
            requires
                a <= b,
        ;
        rounding::lemma_rounded_ordered(a * full->units, b * full->units, p);
        power2::lemma_pow2_unfold(150);
        let x = 2 * rounding::rounded(a * full->units, p) + p;
        let y = 2 * rounding::rounded(b * full->units, p) + p;
        div_mod::lemma_div_is_ordered(x as int, y as int, power2::pow2(150) as int);
    }
}

/// A product of two levels exceeds neither.
proof fn lemma_product_below(f: Single, alpha: Single)
    requires
        is_level(f@),
        is_level(alpha@),
    ensures
        f@.times(alpha@) is Finite,
        f@.times(alpha@).signed() <= alpha@.signed(),
{
    precision::lemma_one();
    precision::lemma_pattern_exact(alpha.bits);
    let one = precision::one() as nat;
    let x = f@->units;
    let a = alpha@->units;
    assert(x * a <= a * one) by (nonlinear_arith)
        requires
            x <= one,
    ;
    rounding::lemma_rounded_ordered(x * a, a * one, one);
    rounding::lemma_rounded_scales(a, 1, one);
}

/// Premultiplying only darkens: for levels from 0 to 1 no channel exceeds
/// alpha, and none exceeds what it is without premultiplying.
pub proof fn law_premultiplied_stays_below(f: (Single, Single, Single), alpha: Single)
    requires
        is_level(f.0@),
        is_level(f.1@),
        is_level(f.2@),
        is_level(alpha@),
    ensures
        ({
            let colour = (f.0@, f.1@, f.2@);
            let (b, g, r, a) = transparent(colour, alpha@, true);
            let straight = transparent(colour, alpha@, false);
            &&& b <= a && g <= a && r <= a
            &&& b <= straight.0 && g <= straight.1 && r <= straight.2
        }),
{
    lemma_shaded_below(f.0, alpha);
    lemma_shaded_below(f.1, alpha);
    lemma_shaded_below(f.2, alpha);
}

proof fn lemma_shaded_below(f: Single, alpha: Single)
    requires
        is_level(f@),
        is_level(alpha@),
    ensures
        shaded(f@, alpha@) <= level(alpha@),
        shaded(f@, alpha@) <= shaded(f@, Number::whole(1)),
{
    reveal(shaded);
    lemma_times_one(f);
    lemma_product_below(f, alpha);
    lemma_product_below(alpha, f);
    precision::lemma_times_commutes(f@, alpha@);
    lemma_level_ordered(f@.times(alpha@), alpha@);
    lemma_level_ordered(f@.times(alpha@), f@);
}

/// A picture of one colour keeps its colour at any size, as long as not too many
/// pixels are averaged.
pub proof fn law_plain_picture_stays_plain(
    picture: Picture,
    size: (nat, nat),
    scaled: Seq<u8>,
    colour: (u8, u8, u8),
)
    requires
        picture.well_formed(),
        keeps_levels(picture.width as nat, size.0),
        keeps_levels(picture.height as nat, size.1),
        forall|p: int|
            0 <= p < picture.width * picture.height ==> #[trigger] rgb_pixel(picture.rgb@, p) == (
                colour.0 as nat,
                colour.1 as nat,
                colour.2 as nat,
            ),
        is_scaled(picture, size, scaled),
    ensures
        forall|p: int|
            0 <= p < size.0 * size.1 ==> #[trigger] rgb_pixel(scaled, p) == (
                colour.0 as nat,
                colour.1 as nat,
                colour.2 as nat,
            ),
{
    assert forall|p: int| 0 <= p < size.0 * size.1 implies #[trigger] rgb_pixel(scaled, p) == (
        colour.0 as nat,
        colour.1 as nat,
        colour.2 as nat,
    ) by {
        let w = size.0 as int;
        lemma_moved(p, w, size.1 as int, 0, 0, w, size.1 as int);
        div_mod::lemma_fundamental_div_mod(p, w);
        assert(w * (p / w) == (p / w) * w) by (nonlinear_arith);
        let x = p % w;
        let y = p / w;
        lemma_plain_around(picture, size, x, y, colour);
        assert(is_flat_around(picture, size, x, y, 0, colour.0));
        assert(is_flat_around(picture, size, x, y, 1, colour.1));
        assert(is_flat_around(picture, size, x, y, 2, colour.2));
    }
}

proof fn lemma_plain_around(
    picture: Picture,
    size: (nat, nat),
    x: int,
    y: int,
    colour: (u8, u8, u8),
)
    requires
        forall|p: int|
            0 <= p < picture.width * picture.height ==> #[trigger] rgb_pixel(picture.rgb@, p) == (
                colour.0 as nat,
                colour.1 as nat,
                colour.2 as nat,
            ),
    ensures
        is_flat_around(picture, size, x, y, 0, colour.0),
        is_flat_around(picture, size, x, y, 1, colour.1),
        is_flat_around(picture, size, x, y, 2, colour.2),
{
    assert forall|column: int, row: int|
        0 <= column < picture.width && 0 <= row < picture.height implies #[trigger] byte_at(
        picture,
        column,
        row,
        0,
    ) == colour.0 && byte_at(picture, column, row, 1) == colour.1 && byte_at(
        picture,
        column,
        row,
        2,
    ) == colour.2 by {
        let w = picture.width as int;
        let h = picture.height as int;
        assert(0 <= row * w && row * w + w <= w * h) by (nonlinear_arith)
            requires
                0 <= row,
                row + 1 <= h,
                w >= 0,
        ;
        let pixel = rgb_pixel(picture.rgb@, row * w + column);
        assert(pixel == (colour.0 as nat, colour.1 as nat, colour.2 as nat));
    }
    assert forall|column: int, row: int|
        0 <= column < picture.width && 0 <= row < picture.height implies #[trigger] byte_at(
        picture,
        column,
        row,
        1,
    ) == colour.1 by {
        assert(byte_at(picture, column, row, 0) == colour.0);
    }
    assert forall|column: int, row: int|
        0 <= column < picture.width && 0 <= row < picture.height implies #[trigger] byte_at(
        picture,
        column,
        row,
        2,
    ) == colour.2 by {
        assert(byte_at(picture, column, row, 0) == colour.0);
    }
}

/// Something is within reach of every scaled pixel: the pixel of the source that
/// lies under its middle.
pub proof fn law_something_is_near(x: int, source: int, target: int)
    requires
        0 < source,
        0 <= x < target,
    ensures
        ({
            let under = (2 * x + 1) * source / (2 * target);
            0 <= under < source && is_near(under, x, source, target)
        }),
{
    let a = (2 * x + 1) * source;
    let b = 2 * target;
    let under = a / b;
    div_mod::lemma_fundamental_div_mod(a, b);
    div_mod::lemma_mod_bound(a, b);
    assert(0 <= a < source * b) by (nonlinear_arith)
        requires
            a == (2 * x + 1) * source,
            b == 2 * target,
            0 <= x < target,
            source > 0,
    ;
    assert(0 <= under < source) by (nonlinear_arith)
        requires
            0 <= a < source * b,
            under == a / b,
            b > 0,
    ;
    assert((2 * under + 1) * target == b * under + target) by (nonlinear_arith)
        requires
            b == 2 * target,
    ;
    let more = source / 0x10_0000;
    assert(4 * target * (1 + more) >= 4 * target) by (nonlinear_arith)
        requires
            more >= 0,
            target > 0,
    ;
}

/// Whether a byte is the mixture `f * alpha + back * (1 - alpha)` of levels from
/// 0 to 1, off by no more than 0.501.
pub open spec fn is_mixture(byte: u8, f: Number, alpha: Number, back: u8) -> bool {
    let one = precision::one();
    let exact = 255 * (f.signed() * alpha.signed()) + back * (one * (one - alpha.signed()));
    is_level(f) && is_level(alpha) ==> -501 * (one * one) <= 1000 * (byte * (one * one) - exact)
        <= 501 * (one * one)
}

/// Whether each channel of pixel `p` of an interleaved RGB image is the mixture
/// of that channel of the planar foreground with that channel of what lies
/// behind. The foreground holds all red values, then all green and all blue.
pub open spec fn pixel_is_mixture(
    out: Seq<u8>,
    fgr: Seq<Single>,
    pha: Seq<Single>,
    plane: int,
    p: int,
    back: (u8, u8, u8),
) -> bool {
    &&& is_mixture(out[3 * p], fgr[p]@, pha[p]@, back.0)
    &&& is_mixture(out[3 * p + 1], fgr[plane + p]@, pha[p]@, back.1)
    &&& is_mixture(out[3 * p + 2], fgr[2 * plane + p]@, pha[p]@, back.2)
}

/// A foreground over an opaque colour is, channel by channel, the mixture that
/// alpha asks for.
pub proof fn law_pixel_is_mixture(
    out: Seq<u8>,
    fgr: Seq<Single>,
    pha: Seq<Single>,
    plane: int,
    p: int,
    back: (u8, u8, u8),
)
    requires
        rgb_pixel(out, p) == opaque(
            convert::planar_pixel(fgr, plane, p),
            pha[p]@,
            (back.0 as nat, back.1 as nat, back.2 as nat),
        ),
    ensures
        is_mixture(out[3 * p], fgr[p]@, pha[p]@, back.0),
        is_mixture(out[3 * p + 1], fgr[plane + p]@, pha[p]@, back.1),
        is_mixture(out[3 * p + 2], fgr[2 * plane + p]@, pha[p]@, back.2),
{
    lemma_is_mixture(out[3 * p], fgr[p]@, pha[p]@, back.0);
    lemma_is_mixture(out[3 * p + 1], fgr[plane + p]@, pha[p]@, back.1);
    lemma_is_mixture(out[3 * p + 2], fgr[2 * plane + p]@, pha[p]@, back.2);
}

proof fn lemma_is_mixture(byte: u8, f: Number, alpha: Number, back: u8)
    requires
        byte == level(blended(f, alpha, convert::normalized(back as nat))),
    ensures
        is_mixture(byte, f, alpha, back),
{
    if is_level(f) && is_level(alpha) {
        law_blend_follows_the_formula(f, alpha, back);
    }
}

/// Whether a byte is a level times a scale, both from 0 to 1, off by no more than
/// 0.501.
pub open spec fn is_scaled_level(byte: u8, f: Number, scale: int) -> bool {
    let one = precision::one();
    is_level(f) && 0 <= scale <= one ==> -501 * (one * one) <= 1000 * (byte * (one * one) - 255 * (
    f.signed() * scale)) <= 501 * (one * one)
}

/// Whether pixel `p` of a BGRA image is the foreground with its alpha: blue,
/// green, red, alpha. The colour is scaled by alpha where it is premultiplied.
pub open spec fn pixel_is_bgra(
    out: Seq<u8>,
    fgr: Seq<Single>,
    pha: Seq<Single>,
    plane: int,
    p: int,
    premultiplied: bool,
) -> bool {
    let scale = if premultiplied {
        pha[p]@.signed()
    } else {
        precision::one()
    };
    is_level(pha[p]@) ==> {
        &&& is_scaled_level(out[4 * p], fgr[2 * plane + p]@, scale)
        &&& is_scaled_level(out[4 * p + 1], fgr[plane + p]@, scale)
        &&& is_scaled_level(out[4 * p + 2], fgr[p]@, scale)
        &&& is_scaled_level(out[4 * p + 3], pha[p]@, precision::one())
    }
}

proof fn lemma_level_close(v: Number)
    requires
        v is Finite,
        -precision::fine() <= v.signed() <= precision::one() + precision::fine(),
    ensures
        level(v) <= 255,
        -500_040 * precision::one() <= 1_000_000 * (level(v) * precision::one() - 255
            * v.signed()) <= 500_040 * precision::one() + 255_000_000 * precision::fine(),
        -500_040 * precision::one() - 255_000_000 * precision::fine() <= 1_000_000 * (level(v)
            * precision::one() - 255 * v.signed()),
{
    reveal(level);
    let one = precision::one();
    let full = Number::whole(255);
    precision::lemma_whole(255);
    assert(v->units * full->units < 1024 * one * one) by (nonlinear_arith)
        requires
            v->units <= 2 * one,
            full->units == 255 * one,
            one == precision::one(),
    ;
    precision::lemma_times_close(v, full);
    let scaled = v.times(full);
    let m = v.signed();
    assert(m * full.signed() == (255 * m) * one) by (nonlinear_arith)
        requires
            full.signed() == 255 * one,
    ;
    precision::lemma_nearest_byte_close(scaled);
}

proof fn lemma_scaled_level(byte: u8, f: Number, scale: Number)
    requires
        byte == shaded(f, scale),
        is_level(scale),
    ensures
        is_scaled_level(byte, f, scale.signed()),
{
    if is_level(f) {
        reveal(shaded);
        let one = precision::one();
        let x = f.signed();
        let s = scale.signed();
        assert(0 <= x * s <= one * one) by (nonlinear_arith)
            requires
                0 <= x <= one,
                0 <= s <= one,
        ;
        assert(f->units * scale->units <= 2 * one * one) by (nonlinear_arith)
            requires
                f->units <= one,
                scale->units <= one,
                one == precision::one(),
        ;
        precision::lemma_times_fine(f, scale);
        lemma_level_close(f.times(scale));
        let t = f.times(scale).signed();
        lemma_scaled_bounds(byte as int, t, x * s, one, precision::fine());
    }
}

proof fn lemma_scaled_bounds(byte: int, t: int, product: int, one: int, fine: int)
    requires
        one == 0x40_0000 * fine,
        fine > 0,
        -fine * one <= t * one - product <= fine * one,
        -500_040 * one - 255_000_000 * fine <= 1_000_000 * (byte * one - 255 * t) <= 500_040 * one
            + 255_000_000 * fine,
    ensures
        -501 * (one * one) <= 1000 * (byte * (one * one) - 255 * product) <= 501 * (one * one),
{
    let d = byte * one - 255 * t;
    let unit = one * one;
    let room = 501_000 * one - 510_000_000 * fine;
    assert(d * one == byte * unit - 255 * (t * one)) by (nonlinear_arith)
        requires
            d == byte * one - 255 * t,
            unit == one * one,
    ;
    assert(500_040 * one + 255_000_000 * fine <= room);
    assert(1_000_000 * d <= room);
    assert(-room <= 1_000_000 * d);
    assert(-(room * one) <= 1_000_000 * (d * one) <= room * one) by (nonlinear_arith)
        requires
            -room <= 1_000_000 * d <= room,
            one > 0,
    ;
    let step = fine * one;
    assert(room * one == 501_000 * unit - 510_000_000 * step) by (nonlinear_arith)
        requires
            room == 501_000 * one - 510_000_000 * fine,
            unit == one * one,
            step == fine * one,
    ;
    assert(step > 0) by (nonlinear_arith)
        requires
            fine > 0,
            one > 0,
            step == fine * one,
    ;
    assert(-fine * one == -step) by (nonlinear_arith)
        requires
            step == fine * one,
    ;
    let e = t * one - product;
    assert(-step <= e <= step);
    assert(byte * unit - 255 * product == d * one + 255 * e);
    assert(1_000_000 * (byte * unit - 255 * product) <= 501_000 * unit);
    assert(-501_000 * unit <= 1_000_000 * (byte * unit - 255 * product));
}

/// A foreground and its alpha are put out as blue, green, red and alpha, and
/// premultiplying scales the colour by alpha, but not alpha itself.
pub proof fn law_bgra_pixel(
    out: Seq<u8>,
    fgr: Seq<Single>,
    pha: Seq<Single>,
    plane: int,
    p: int,
    premultiplied: bool,
)
    requires
        bgra_pixel(out, p) == transparent(
            convert::planar_pixel(fgr, plane, p),
            pha[p]@,
            premultiplied,
        ),
    ensures
        ({
            let scale = if premultiplied {
                pha[p]@.signed()
            } else {
                precision::one()
            };
            is_level(pha[p]@) ==> {
                &&& is_scaled_level(out[4 * p], fgr[2 * plane + p]@, scale)
                &&& is_scaled_level(out[4 * p + 1], fgr[plane + p]@, scale)
                &&& is_scaled_level(out[4 * p + 2], fgr[p]@, scale)
                &&& is_scaled_level(out[4 * p + 3], pha[p]@, precision::one())
            }
        }),
{
    if is_level(pha[p]@) {
        let one = precision::one();
        precision::lemma_whole(1);
        let scale = if premultiplied {
            pha[p]@
        } else {
            Number::whole(1)
        };
        lemma_scaled_level(out[4 * p], fgr[2 * plane + p]@, scale);
        lemma_scaled_level(out[4 * p + 1], fgr[plane + p]@, scale);
        lemma_scaled_level(out[4 * p + 2], fgr[p]@, scale);
        let a = pha[p]@.signed();
        lemma_level_close(pha[p]@);
        lemma_scaled_bounds(out[4 * p + 3] as int, a, a * one, one, precision::fine());
    }
}

/// Whether a channel of pixel `x`, `y` of the target is that of the scaled
/// picture, moved by half of what is too much on each axis.
pub open spec fn is_cut_at(
    scaled: Seq<u8>,
    size: (int, int),
    rgb: Seq<u8>,
    target: (u32, u32),
    x: int,
    y: int,
    ch: int,
) -> bool {
    rgb[3 * (y * target.0 + x) + ch] == scaled[3 * ((y + (size.1 - target.1) / 2) * size.0 + (x + (
    size.0 - target.0) / 2)) + ch]
}

/// Whether a channel of pixel `x`, `y` of the target is that of the scaled
/// picture in the middle, or black around it.
pub open spec fn is_inset_at(
    scaled: Seq<u8>,
    size: (int, int),
    rgb: Seq<u8>,
    target: (u32, u32),
    x: int,
    y: int,
    ch: int,
) -> bool {
    let left = (target.0 - size.0) / 2;
    let top = (target.1 - size.1) / 2;
    rgb[3 * (y * target.0 + x) + ch] == if left <= x < left + size.0 && top <= y < top + size.1 {
        scaled[3 * ((y - top) * size.0 + (x - left)) + ch]
    } else {
        0
    }
}

/// A picture that covers the target is cut so that as much is lost on the left as
/// on the right, and at the top as at the bottom: pixel `x`, `y` of the target is
/// that pixel of the scaled picture, moved by half of what is too much.
pub proof fn law_cover_cuts_the_middle(
    scaled: Seq<u8>,
    size: (int, int),
    target: (u32, u32),
    x: int,
    y: int,
    ch: int,
)
    requires
        target.0 <= size.0,
        target.1 <= size.1,
        0 <= x < target.0,
        0 <= y < target.1,
        0 <= ch < 3,
    ensures
        fitted(scaled, size, target, Fit::Cover)[3 * (y * target.0 + x) + ch] == scaled[3 * ((y + (
        size.1 - target.1) / 2) * size.0 + (x + (size.0 - target.0) / 2)) + ch],
{
    lemma_placed(target, x, y, ch);
}

/// A picture that is contained in the target lies in its middle, on black.
pub proof fn law_contain_centres_on_black(
    scaled: Seq<u8>,
    size: (int, int),
    target: (u32, u32),
    x: int,
    y: int,
    ch: int,
)
    requires
        0 <= size.0 <= target.0,
        0 <= size.1 <= target.1,
        0 <= x < target.0,
        0 <= y < target.1,
        0 <= ch < 3,
    ensures
        ({
            let left = (target.0 - size.0) / 2;
            let top = (target.1 - size.1) / 2;
            let byte = fitted(scaled, size, target, Fit::Contain)[3 * (y * target.0 + x) + ch];
            byte == if left <= x < left + size.0 && top <= y < top + size.1 {
                scaled[3 * ((y - top) * size.0 + (x - left)) + ch]
            } else {
                0
            }
        }),
{
    lemma_placed(target, x, y, ch);
}

proof fn lemma_placed(target: (u32, u32), x: int, y: int, ch: int)
    requires
        0 <= x < target.0,
        0 <= y < target.1,
        0 <= ch < 3,
    ensures
        ({
            let w = target.0 as int;
            let k = 3 * (y * target.0 + x) + ch;
            &&& 0 <= k < 3 * (w * target.1)
            &&& k / 3 == y * target.0 + x
            &&& k % 3 == ch
            &&& k / 3 / w == y
            &&& k / 3 % w == x
        }),
{
    let w = target.0 as int;
    let h = target.1 as int;
    div_mod::lemma_fundamental_div_mod_converse(y * w + x, w, y, x);
    assert(0 <= y * w && y * w + w <= w * h) by (nonlinear_arith)
        requires
            0 <= y,
            y + 1 <= h,
            w > 0,
    ;
}

/// A level above one is full, one below zero is none, and so is a NaN.
pub proof fn law_level_saturates(v: Number)
    ensures
        v is Finite && v.signed() >= precision::one() ==> level(v) == 255,
        v is Finite && v.signed() <= 0 ==> level(v) == 0,
        v is Nan ==> level(v) == 0,
        v is Infinite ==> level(v) == if v.is_negative() {
            0nat
        } else {
            255nat
        },
{
    reveal(level);
    precision::lemma_whole(255);
    precision::lemma_one();
    if v is Finite && v.signed() >= precision::one() {
        let one = precision::one();
        let n = v->units * (255 * one) as nat;
        assert(n == (255 * v->units) * one) by (nonlinear_arith)
            requires
                n == v->units * (255 * one),
        ;
        let exact = (255 * v->units) as nat;
        rounding::lemma_rounded_scales(exact, 1, one as nat);
        assert(exact / 1 == exact);
        precision::lemma_rounded_relative(exact, 1);
        let product = v.times(Number::whole(255));
        if product is Finite {
            precision::lemma_nearest_byte_close(product);
        }
    } else if v is Finite && v.signed() <= 0 {
        if v.is_zero() {
            lemma_level_of_zero(v);
        }
    }
}

/// A side that is scaled is off from the exact product by less than one pixel
/// and one part in 2^24.
proof fn lemma_side_close(source: u32, scale: Number)
    requires
        0 < source <= 0x10_0000,
        scale is Finite,
        !scale.is_negative(),
        scale->units >= 0x80_0000,
    ensures
        ({
            let one = precision::one();
            let side = Number::whole(source as nat).times(scale);
            let exact = source * scale->units;
            let up = side.ceil_word();
            let down = side.floor_word();
            &&& up < 0xffff_ffff ==> 0x100_0000 * (up * one - exact) <= 0x100_0000 * one + exact
                && 0x100_0000 * (exact - up * one) <= exact
            &&& down < 0xffff_ffff ==> 0x100_0000 * (down * one - exact) <= exact && 0x100_0000 * (
            exact - down * one) <= 0x100_0000 * one + exact
        }),
{
    let one = precision::one();
    let s = scale->units;
    let side = Number::whole(source as nat).times(scale);
    precision::lemma_one();
    precision::lemma_whole(source as nat);
    let exact = source as nat * s;
    assert((source * one) * s == exact * one) by (nonlinear_arith)
        requires
            exact == source * s,
    ;
    rounding::lemma_rounded_scales(exact, 1, one as nat);
    let got = rounding::rounded(exact, 1);
    assert(exact / 1 == exact);
    assert(exact >= s) by (nonlinear_arith)
        requires
            exact == source * s,
            source >= 1,
            s >= 0,
    ;
    precision::lemma_rounded_relative(exact, 1);
    assert(side == Number::bounded(false, got));
    if side is Finite {
        precision::law_whole_parts(side);
    }
}

/// A scaled picture keeps its proportions, but for a pixel on each side and
/// rounding. The factor is tight: a picture that covers the target is, on one
/// side at least, no more than a pixel larger, and one that is contained is, on
/// one side at least, no more than a pixel smaller.
pub proof fn law_scaling_is_tight_and_even(source: (u32, u32), target: (u32, u32), fit: Fit)
    requires
        0 < source.0 <= 0x10_0000,
        0 < source.1 <= 0x10_0000,
        0 < target.0 <= 0x10_0000,
        0 < target.1 <= 0x10_0000,
        !(fit is Stretch),
        scaled_size_spec(source, target, fit).0 < 0xffff_ffff,
        scaled_size_spec(source, target, fit).1 < 0xffff_ffff,
    ensures
        ({
            let (sw, sh) = scaled_size_spec(source, target, fit);
            let (w, h) = source;
            &&& 0x10_0000 * (sw * h - sh * w) <= 0x10_0000 * (w + h) + sw * h + sh * w
            &&& 0x10_0000 * (sh * w - sw * h) <= 0x10_0000 * (w + h) + sw * h + sh * w
            &&& fit is Cover ==> sw <= target.0 + 1 || sh <= target.1 + 1
            &&& fit is Contain ==> sw + 1 >= target.0 || sh + 1 >= target.1
        }),
{
    lemma_growth(source.0, target.0);
    lemma_growth(source.1, target.1);
    let across = growth(source.0, target.0);
    let down = growth(source.1, target.1);
    lemma_growth_large(source.0, target.0);
    lemma_growth_large(source.1, target.1);
    let scale = if fit is Cover {
        across.larger(down)
    } else {
        across.smaller(down)
    };
    let (sw, sh) = scaled_size_spec(source, target, fit);
    assert(scale == across || scale == down);
    lemma_side_close(source.0, scale);
    lemma_side_close(source.1, scale);
    law_scaled_size(source, target);
    let u = scale->units as int;
    let one = precision::one();
    lemma_even(source.0 as int, source.1 as int, sw as int, sh as int, u, one);
    if scale == across {
        assert(u * source.0 == source.0 * u) by (nonlinear_arith);
        lemma_tight(sw as int, target.0 as int, source.0 * u, one);
    } else {
        assert(u * source.1 == source.1 * u) by (nonlinear_arith);
        lemma_tight(sh as int, target.1 as int, source.1 * u, one);
    }
}

proof fn lemma_growth_large(source: u32, target: u32)
    requires
        0 < source <= 0x10_0000,
        0 < target <= 0x10_0000,
    ensures
        growth(source, target)->units >= 0x80_0000,
{
    lemma_growth(source, target);
    let a = growth(source, target)->units;
    assert(a >= 0x80_0000) by (nonlinear_arith)
        requires
            0x100_0000 * (target * precision::one() - a * source) <= target * precision::one(),
            target >= 1,
            0 < source <= 0x10_0000,
    ;
}

/// Two sides, each within a pixel of the same multiple of its source.
proof fn lemma_even(w: int, h: int, sw: int, sh: int, u: int, one: int)
    requires
        w > 0,
        h > 0,
        sw >= 1,
        sh >= 1,
        one > 0,
        u >= 0,
        -(0x100_0000 * one + w * u) <= 0x100_0000 * (sw * one - w * u) <= 0x100_0000 * one + w * u,
        -(0x100_0000 * one + h * u) <= 0x100_0000 * (sh * one - h * u) <= 0x100_0000 * one + h * u,
    ensures
        0x10_0000 * (sw * h - sh * w) <= 0x10_0000 * (w + h) + sw * h + sh * w,
        0x10_0000 * (sh * w - sw * h) <= 0x10_0000 * (w + h) + sw * h + sh * w,
{
    let p = w * h * u;
    let a = sw * one - w * u;
    let b = sh * one - h * u;
    assert(h * a == (sw * h) * one - p) by (nonlinear_arith)
        requires
            a == sw * one - w * u,
            p == w * h * u,
    ;
    assert(w * b == (sh * w) * one - p) by (nonlinear_arith)
        requires
            b == sh * one - h * u,
            p == w * h * u,
    ;
    assert(-(0x100_0000 * (h * one) + p) <= 0x100_0000 * (h * a) <= 0x100_0000 * (h * one) + p)
        by (nonlinear_arith)
        requires
            -(0x100_0000 * one + w * u) <= 0x100_0000 * a <= 0x100_0000 * one + w * u,
            h > 0,
            p == w * h * u,
    ;
    assert(-(0x100_0000 * (w * one) + p) <= 0x100_0000 * (w * b) <= 0x100_0000 * (w * one) + p)
        by (nonlinear_arith)
        requires
            -(0x100_0000 * one + h * u) <= 0x100_0000 * b <= 0x100_0000 * one + h * u,
            w > 0,
            p == w * h * u,
    ;
    let x = sw * h;
    let y = sh * w;
    assert(x >= h) by (nonlinear_arith)
        requires
            x == sw * h,
            sw >= 1,
            h > 0,
    ;
    assert(x * one >= h * one) by (nonlinear_arith)
        requires
            x >= h,
            one > 0,
    ;
    assert(p <= 4 * (x * one));
    let d = x - y;
    assert(d * one == x * one - y * one) by (nonlinear_arith)
        requires
            d == x - y,
    ;
    let room = 0x100_0000 * (w + h) + 8 * x;
    assert(room * one == 0x100_0000 * (w * one) + 0x100_0000 * (h * one) + 8 * (x * one))
        by (nonlinear_arith)
        requires
            room == 0x100_0000 * (w + h) + 8 * x,
    ;
    assert(-(room * one) <= 0x100_0000 * (d * one) <= room * one);
    assert(-room <= 0x100_0000 * d <= room) by (nonlinear_arith)
        requires
            -(room * one) <= 0x100_0000 * (d * one) <= room * one,
            one > 0,
    ;
    assert(y >= 0) by (nonlinear_arith)
        requires
            y == sh * w,
            sh >= 1,
            w > 0,
    ;
}

/// A side that is scaled to a target by its own factor.
proof fn lemma_tight(side: int, target: int, exact: int, one: int)
    requires
        0 < target <= 0x10_0000,
        one > 0,
        -(target * one) <= 0x100_0000 * (exact - target * one) <= target * one,
        -(0x100_0000 * one + exact) <= 0x100_0000 * (side * one - exact) <= 0x100_0000 * one + exact,
    ensures
        target - 1 <= side <= target + 1,
{
    let t = target * one;
    assert(t <= 0x10_0000 * one) by (nonlinear_arith)
        requires
            t == target * one,
            target <= 0x10_0000,
            one > 0,
    ;
    let s = side * one;
    assert(s < t + 2 * one);
    assert(s > t - 2 * one);
    assert(side < target + 2) by (nonlinear_arith)
        requires
            side * one < target * one + 2 * one,
            one > 0,
    ;
    assert(side > target - 2) by (nonlinear_arith)
        requires
            side * one > target * one - 2 * one,
            one > 0,
    ;
}

/// Every picture and every target of up to 2^20 pixels a side go together, as
/// long as the buffers fit into memory.
pub proof fn law_ordinary_pictures_are_drawn(source: (u32, u32), target: (u32, u32), fit: Fit)
    requires
        0 < source.0 <= 0x10_0000,
        0 < source.1 <= 0x10_0000,
        0 < target.0 <= 0x10_0000,
        0 < target.1 <= 0x10_0000,
        16 * (source.0 * scaled_size_spec(source, target, fit).1) <= isize::MAX,
        3 * (scaled_size_spec(source, target, fit).0 * scaled_size_spec(source, target, fit).1)
            <= isize::MAX,
        3 * (target.0 * target.1) <= isize::MAX,
    ensures
        drawable(source, target, fit),
{
    law_scaled_size(source, target);
}

} // verus!
