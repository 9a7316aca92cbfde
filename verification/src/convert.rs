//! YUYV 4:2:2 <-> RGB conversion.
//!
//! Uses the BT.601 limited-range matrix, which is what USB and loopback
//! webcams overwhelmingly produce. If colours look washed out or over-saturated
//! against the real camera, this is the first constant to revisit.

use crate::number::Number;
use crate::precision;
use crate::rounding;
use crate::single::Single;
use vstd::arithmetic::div_mod;
use vstd::arithmetic::power2;
use vstd::prelude::*;

verus! {

/// `n` millionths.
pub open spec fn millionths(n: nat) -> Number {
    Number::ratio(n, 1_000_000)
}

/// A sample, as a number relative to its neutral level.
pub open spec fn offset(sample: u8, neutral: nat) -> Number {
    Number::whole(sample as nat).minus(Number::whole(neutral))
}

pub open spec fn scaled_luma(y: u8) -> Number {
    offset(y, 16).times(millionths(1_164_383))
}

#[verifier::opaque]
pub open spec fn red(y: u8, u: u8, v: u8) -> Number {
    scaled_luma(y).plus(millionths(1_596_027).times(offset(v, 128)))
}

#[verifier::opaque]
pub open spec fn green(y: u8, u: u8, v: u8) -> Number {
    scaled_luma(y).minus(millionths(391_762).times(offset(u, 128))).minus(
        millionths(812_968).times(offset(v, 128)),
    )
}

#[verifier::opaque]
pub open spec fn blue(y: u8, u: u8, v: u8) -> Number {
    scaled_luma(y).plus(millionths(2_017_232).times(offset(u, 128)))
}

#[verifier::opaque]
pub open spec fn luma(r: u8, g: u8, b: u8) -> Number {
    millionths(256_788).times(Number::whole(r as nat)).plus(
        millionths(504_129).times(Number::whole(g as nat)),
    ).plus(millionths(97_906).times(Number::whole(b as nat))).plus(Number::whole(16))
}

#[verifier::opaque]
pub open spec fn chroma_u(r: u8, g: u8, b: u8) -> Number {
    millionths(148_223).negated().times(Number::whole(r as nat)).minus(
        millionths(290_993).times(Number::whole(g as nat)),
    ).plus(millionths(439_216).times(Number::whole(b as nat))).plus(Number::whole(128))
}

#[verifier::opaque]
pub open spec fn chroma_v(r: u8, g: u8, b: u8) -> Number {
    millionths(439_216).times(Number::whole(r as nat)).minus(
        millionths(367_788).times(Number::whole(g as nat)),
    ).minus(millionths(71_427).times(Number::whole(b as nat))).plus(Number::whole(128))
}

/// The patterns of the matrix coefficients.
proof fn lemma_coefficients()
    ensures
        Number::of_bits(0x3f95_0a81) == millionths(1_164_383),
        Number::of_bits(0x3fcc_4a9d) == millionths(1_596_027),
        Number::of_bits(0x3ec8_9507) == millionths(391_762),
        Number::of_bits(0x3f50_1eac) == millionths(812_968),
        Number::of_bits(0x4001_1a54) == millionths(2_017_232),
        Number::of_bits(0x3e83_79b7) == millionths(256_788),
        Number::of_bits(0x3f01_0e99) == millionths(504_129),
        Number::of_bits(0x3dc8_82f1) == millionths(97_906),
        Number::of_bits(0x3e17_c7c5) == millionths(148_223),
        Number::of_bits(0x3e94_fd09) == millionths(290_993),
        Number::of_bits(0x3ee0_e0eb) == millionths(439_216),
        Number::of_bits(0x3ebc_4eb5) == millionths(367_788),
        Number::of_bits(0x3d92_4852) == millionths(71_427),
{
    power2::lemma2_to64();
    precision::lemma_ratio_pattern(1_164_383, 1_000_000, 23, 0x3f95_0a81);
    precision::lemma_ratio_pattern(1_596_027, 1_000_000, 23, 0x3fcc_4a9d);
    precision::lemma_ratio_pattern(391_762, 1_000_000, 25, 0x3ec8_9507);
    precision::lemma_ratio_pattern(812_968, 1_000_000, 24, 0x3f50_1eac);
    precision::lemma_ratio_pattern(2_017_232, 1_000_000, 22, 0x4001_1a54);
    precision::lemma_ratio_pattern(256_788, 1_000_000, 25, 0x3e83_79b7);
    precision::lemma_ratio_pattern(504_129, 1_000_000, 24, 0x3f01_0e99);
    precision::lemma_ratio_pattern(97_906, 1_000_000, 27, 0x3dc8_82f1);
    precision::lemma_ratio_pattern(148_223, 1_000_000, 26, 0x3e17_c7c5);
    precision::lemma_ratio_pattern(290_993, 1_000_000, 25, 0x3e94_fd09);
    precision::lemma_ratio_pattern(439_216, 1_000_000, 25, 0x3ee0_e0eb);
    precision::lemma_ratio_pattern(367_788, 1_000_000, 25, 0x3ebc_4eb5);
    precision::lemma_ratio_pattern(71_427, 1_000_000, 27, 0x3d92_4852);
}

pub fn yuv_to_rgb(y: u8, u: u8, v: u8) -> (rgb: [u8; 3])
    ensures
        rgb[0] == red(y, u, v).nearest_byte(),
        rgb[1] == green(y, u, v).nearest_byte(),
        rgb[2] == blue(y, u, v).nearest_byte(),
        stands_for(rgb[0] as nat, 1_164_383 * (y - 16) + 1_596_027 * (v - 128)),
        stands_for(
            rgb[1] as nat,
            1_164_383 * (y - 16) - 391_762 * (u - 128) - 812_968 * (v - 128),
        ),
        stands_for(rgb[2] as nat, 1_164_383 * (y - 16) + 2_017_232 * (u - 128)),
{
    proof {
        law_colour_follows_the_matrix(y, u, v);
        lemma_coefficients();
        reveal(red);
        reveal(green);
        reveal(blue);
    }
    let y = Single::from_u32(y as u32).minus(Single::from_u32(16)).times(
        Single::from_bits(0x3f95_0a81),
    );
    let u = Single::from_u32(u as u32).minus(Single::from_u32(128));
    let v = Single::from_u32(v as u32).minus(Single::from_u32(128));
    let r = y.plus(Single::from_bits(0x3fcc_4a9d).times(v));
    let g = y.minus(Single::from_bits(0x3ec8_9507).times(u)).minus(
        Single::from_bits(0x3f50_1eac).times(v),
    );
    let b = y.plus(Single::from_bits(0x4001_1a54).times(u));
    [clamp_u8(r), clamp_u8(g), clamp_u8(b)]
}

pub fn rgb_to_yuv(r: u8, g: u8, b: u8) -> (yuv: [u8; 3])
    ensures
        yuv[0] == luma(r, g, b).nearest_byte(),
        yuv[1] == chroma_u(r, g, b).nearest_byte(),
        yuv[2] == chroma_v(r, g, b).nearest_byte(),
        stands_for(yuv[0] as nat, 256_788 * r + 504_129 * g + 97_906 * b + 16_000_000),
        stands_for(yuv[1] as nat, -148_223 * r - 290_993 * g + 439_216 * b + 128_000_000),
        stands_for(yuv[2] as nat, 439_216 * r - 367_788 * g - 71_427 * b + 128_000_000),
{
    proof {
        law_sample_follows_the_matrix(r, g, b);
        lemma_coefficients();
        reveal(luma);
        reveal(chroma_u);
        reveal(chroma_v);
    }
    let r = Single::from_u32(r as u32);
    let g = Single::from_u32(g as u32);
    let b = Single::from_u32(b as u32);
    let y = Single::from_bits(0x3e83_79b7).times(r).plus(
        Single::from_bits(0x3f01_0e99).times(g),
    ).plus(Single::from_bits(0x3dc8_82f1).times(b)).plus(Single::from_u32(16));
    let u = Single::from_bits(0x3e17_c7c5).neg().times(r).minus(
        Single::from_bits(0x3e94_fd09).times(g),
    ).plus(Single::from_bits(0x3ee0_e0eb).times(b)).plus(Single::from_u32(128));
    let v = Single::from_bits(0x3ee0_e0eb).times(r).minus(
        Single::from_bits(0x3ebc_4eb5).times(g),
    ).minus(Single::from_bits(0x3d92_4852).times(b)).plus(Single::from_u32(128));
    [clamp_u8(y), clamp_u8(u), clamp_u8(v)]
}

/// The nearest byte: halves are rounded away from zero, what lies outside a
/// byte is clamped, NaN becomes 0.
pub fn clamp_u8(v: Single) -> (byte: u8)
    ensures
        byte == v@.nearest_byte(),
        v@ is Finite && byte < 255 ==> 2 * v@.signed() < (2 * byte + 1) * precision::one(),
        v@ is Finite && byte > 0 ==> 2 * v@.signed() >= (2 * byte - 1) * precision::one(),
        v@ is Nan ==> byte == 0,
        v@ is Infinite ==> byte == if v@.is_negative() {
            0int
        } else {
            255int
        },
{
    proof {
        if v@ is Finite {
            precision::lemma_nearest_byte_close(v@);
        }
    }
    v.nearest_byte()
}

/// A byte as a fraction of 255.
#[verifier::opaque]
pub open spec fn normalized(byte: nat) -> Number {
    Number::whole(byte).over(Number::whole(255))
}

/// The three channels of pixel `p` in a planar image.
pub open spec fn planar_pixel(image: Seq<Single>, plane: int, p: int) -> (
    Number,
    Number,
    Number,
) {
    (image[p]@, image[plane + p]@, image[2 * plane + p]@)
}

/// The bytes that hold pixel `p` in a YUYV image: its luma, and the one of the
/// two chroma samples of its pair that is stored beside it.
pub open spec fn yuyv_pixel(image: Seq<u8>, p: int) -> (nat, nat) {
    (image[2 * p] as nat, image[2 * p + 1] as nat)
}

/// Whether pixel `p` belongs to a pair. The last column of an image of odd
/// width does not.
pub open spec fn is_paired(width: int, p: int) -> bool {
    p % width < width / 2 * 2
}

/// The first pixel of the pair that pixel `p` belongs to.
pub open spec fn pair_start(width: int, p: int) -> int {
    p - p % width % 2
}

/// The normalized colour of pixel `p` of a YUYV image.
pub open spec fn colour_of(yuyv: Seq<u8>, width: int, p: int) -> (Number, Number, Number) {
    let pair = 2 * pair_start(width, p);
    let y = yuyv[2 * p];
    let u = yuyv[pair + 1];
    let v = yuyv[pair + 3];
    (
        normalized(red(y, u, v).nearest_byte()),
        normalized(green(y, u, v).nearest_byte()),
        normalized(blue(y, u, v).nearest_byte()),
    )
}

/// The bytes of pixel `p` of an interleaved RGB image in YUYV. Chroma is the
/// average over the pair.
pub open spec fn packed_pixel(rgb: Seq<u8>, width: int, p: int) -> (nat, nat) {
    let a = 3 * pair_start(width, p);
    (
        luma(rgb[3 * p], rgb[3 * p + 1], rgb[3 * p + 2]).nearest_byte(),
        if p % width % 2 == 0 {
            (chroma_u(rgb[a], rgb[a + 1], rgb[a + 2]).nearest_byte() + chroma_u(
                rgb[a + 3],
                rgb[a + 4],
                rgb[a + 5],
            ).nearest_byte()) / 2
        } else {
            (chroma_v(rgb[a], rgb[a + 1], rgb[a + 2]).nearest_byte() + chroma_v(
                rgb[a + 3],
                rgb[a + 4],
                rgb[a + 5],
            ).nearest_byte()) / 2
        },
    )
}

/// Where the pixel in a given row and column stands.
pub proof fn lemma_position(width: int, row: int, col: int)
    requires
        0 <= row,
        0 <= col < width,
    ensures
        (row * width + col) % width == col,
        (row * width + col) / width == row,
{
    div_mod::lemma_fundamental_div_mod_converse(row * width + col, width, row, col);
}

/// Both pixels of a pair are in the image.
pub proof fn lemma_pair_inside(width: int, height: int, p: int)
    requires
        0 < width,
        0 <= p < width * height,
        is_paired(width, p),
    ensures
        0 <= pair_start(width, p) <= p <= pair_start(width, p) + 1,
        pair_start(width, p) + 1 < width * height,
{
    let row = p / width;
    let col = p % width;
    div_mod::lemma_fundamental_div_mod(p, width);
    div_mod::lemma_mod_bound(p, width);
    assert(row < height) by (nonlinear_arith)
        requires
            0 <= p < width * height,
            row == p / width,
            width > 0,
    ;
    assert(0 <= width * row && width * row + width <= width * height) by (nonlinear_arith)
        requires
            0 <= row,
            row + 1 <= height,
            width > 0,
    ;
}

/// Writes the normalized channels of one pixel.
pub(crate) fn put_planar(out: &mut [Single], plane: usize, p: usize, rgb: [u8; 3])
    requires
        old(out)@.len() == 3 * plane,
        p < plane,
    ensures
        final(out)@.len() == old(out)@.len(),
        planar_pixel(final(out)@, plane as int, p as int) == (
            normalized(rgb[0] as nat),
            normalized(rgb[1] as nat),
            normalized(rgb[2] as nat),
        ),
        forall|q: int|
            0 <= q < plane && q != p ==> #[trigger] planar_pixel(final(out)@, plane as int, q)
                == planar_pixel(old(out)@, plane as int, q),
{
    proof {
        reveal(normalized);
    }
    let full = Single::from_u32(255);
    out[p] = Single::from_u32(rgb[0] as u32).over(full);
    out[plane + p] = Single::from_u32(rgb[1] as u32).over(full);
    out[2 * plane + p] = Single::from_u32(rgb[2] as u32).over(full);
}

/// Converts the two pixels of one pair, the first of which is `first`.
fn unpack_pair(yuyv: &[u8], width: usize, first: usize, out: &mut [Single], plane: usize)
    requires
        old(out)@.len() == 3 * plane,
        yuyv@.len() == 2 * plane,
        3 * plane <= usize::MAX,
        first + 1 < plane,
        first as int % width as int % 2 == 0,
        (first + 1) % width as int == first as int % width as int + 1,
    ensures
        final(out)@.len() == old(out)@.len(),
        forall|p: int|
            0 <= p < plane ==> #[trigger] planar_pixel(final(out)@, plane as int, p) == if p
                == first || p == first + 1 {
                colour_of(yuyv@, width as int, p)
            } else {
                planar_pixel(old(out)@, plane as int, p)
            },
{
    let i: usize = 2 * first;
    let u = yuyv[i + 1];
    let v = yuyv[i + 3];
    put_planar(out, plane, first, yuv_to_rgb(yuyv[i], u, v));
    put_planar(out, plane, first + 1, yuv_to_rgb(yuyv[i + 2], u, v));
}

/// YUYV 4:2:2 -> planar RGB, normalized to [0,1], laid out NCHW as the model
/// expects. The last column of an image of odd width is left as it is.
pub fn yuyv_to_rgb_f32_nchw(yuyv: &[u8], width: usize, height: usize, out: &mut [Single])
    requires
        old(out)@.len() == 3 * (width * height),
        yuyv@.len() == 2 * (width * height),
    ensures
        final(out)@.len() == old(out)@.len(),
        forall|p: int|
            0 <= p < width * height ==> #[trigger] planar_pixel(
                final(out)@,
                width * height,
                p,
            ) == if is_paired(width as int, p) {
                colour_of(yuyv@, width as int, p)
            } else {
                planar_pixel(old(out)@, width * height, p)
            },
        forall|row: int, pair: int|
            0 <= row < height && 0 <= pair < width as int / 2 ==> #[trigger] pair_is_unpacked(
                yuyv@,
                final(out)@,
                width as int,
                height as int,
                row,
                pair,
            ),
{
    let ghost before = out@;
    let ghost size: int = width * height;
    let plane = out.len() / 3;
    let mut row: usize = 0;
    while row < height
        invariant
            row <= height,
            plane == size,
            size == width * height,
            3 * size <= usize::MAX,
            out@.len() == 3 * plane,
            yuyv@.len() == 2 * plane,
            forall|p: int|
                0 <= p < size ==> #[trigger] planar_pixel(out@, size, p) == if p < row * width
                    && is_paired(width as int, p) {
                    colour_of(yuyv@, width as int, p)
                } else {
                    planar_pixel(before, size, p)
                },
        decreases height - row,
    {
        proof {
            assert(row * width + width <= size) by (nonlinear_arith)
                requires
                    row + 1 <= height,
                    size == width * height,
                    width >= 0,
            ;
        }
        let start: usize = row * width;
        let mut pair: usize = 0;
        while pair < width / 2
            invariant
                row < height,
                pair <= width / 2,
                start == row * width,
                start + width <= size,
                plane == size,
                3 * size <= usize::MAX,
                out@.len() == 3 * plane,
                yuyv@.len() == 2 * plane,
                forall|p: int|
                    0 <= p < size ==> #[trigger] planar_pixel(out@, size, p) == if p < start + 2
                        * pair && is_paired(width as int, p) {
                        colour_of(yuyv@, width as int, p)
                    } else {
                        planar_pixel(before, size, p)
                    },
            decreases width / 2 - pair,
        {
            let first: usize = start + 2 * pair;
            proof {
                lemma_position(width as int, row as int, 2 * pair as int);
                lemma_position(width as int, row as int, 2 * pair + 1);
            }
            unpack_pair(yuyv, width, first, out, plane);
            pair = pair + 1;
        }
        proof {
            assert forall|p: int|
                start + 2 * (width / 2) <= p < start + width implies !is_paired(
                width as int,
                p,
            ) by {
                lemma_position(width as int, row as int, p - start);
            }
            assert((row + 1) * width == row * width + width) by (nonlinear_arith);
        }
        row = row + 1;
    }
    proof {
        assert(height * width == width * height) by (nonlinear_arith);
        assert forall|row: int, pair: int|
            0 <= row < height && 0 <= pair < width as int / 2 implies #[trigger] pair_is_unpacked(
            yuyv@,
            out@,
            width as int,
            height as int,
            row,
            pair,
        ) by {
            law_frame_follows_the_matrix(
                yuyv@,
                width as int,
                height as int,
                before,
                out@,
                row,
                pair,
            );
        }
    }
}

/// Packs the two pixels of one pair, the first of which is `first`.
fn pack_pair(rgb: &[u8], width: usize, first: usize, out: &mut [u8])
    requires
        2 * rgb@.len() == 3 * old(out)@.len(),
        rgb@.len() <= usize::MAX,
        2 * (first + 1) + 1 < old(out)@.len(),
        first as int % width as int % 2 == 0,
        (first + 1) % width as int == first as int % width as int + 1,
    ensures
        final(out)@.len() == old(out)@.len(),
        forall|p: int|
            0 <= p && 2 * p + 1 < final(out)@.len() ==> #[trigger] yuyv_pixel(final(out)@, p)
                == if p == first || p == first + 1 {
                packed_pixel(rgb@, width as int, p)
            } else {
                yuyv_pixel(old(out)@, p)
            },
{
    let a: usize = 3 * first;
    let p0 = rgb_to_yuv(rgb[a], rgb[a + 1], rgb[a + 2]);
    let p1 = rgb_to_yuv(rgb[a + 3], rgb[a + 4], rgb[a + 5]);
    let o: usize = 2 * first;
    out[o] = p0[0];
    out[o + 1] = ((p0[1] as u16 + p1[1] as u16) / 2) as u8;
    out[o + 2] = p1[0];
    out[o + 3] = ((p0[2] as u16 + p1[2] as u16) / 2) as u8;
}

/// Interleaved RGB8 -> YUYV 4:2:2. Chroma is averaged across each pixel pair.
/// The last column of an image of odd width is left as it is.
pub fn rgb_to_yuyv(rgb: &[u8], width: usize, height: usize, out: &mut [u8])
    requires
        rgb@.len() == 3 * (width * height),
        old(out)@.len() == 2 * (width * height),
    ensures
        final(out)@.len() == old(out)@.len(),
        forall|p: int|
            0 <= p < width * height ==> #[trigger] yuyv_pixel(final(out)@, p) == if is_paired(
                width as int,
                p,
            ) {
                packed_pixel(rgb@, width as int, p)
            } else {
                yuyv_pixel(old(out)@, p)
            },
        forall|row: int, pair: int|
            0 <= row < height && 0 <= pair < width as int / 2 ==> #[trigger] pair_is_packed(
                rgb@,
                final(out)@,
                width as int,
                row,
                pair,
            ),
{
    let ghost before = out@;
    let ghost size: int = width * height;
    assert(rgb@.len() == rgb.len());
    let mut row: usize = 0;
    while row < height
        invariant
            row <= height,
            size == width * height,
            3 * size <= usize::MAX,
            rgb@.len() == 3 * size,
            out@.len() == 2 * size,
            forall|p: int|
                0 <= p < size ==> #[trigger] yuyv_pixel(out@, p) == if p < row * width
                    && is_paired(width as int, p) {
                    packed_pixel(rgb@, width as int, p)
                } else {
                    yuyv_pixel(before, p)
                },
        decreases height - row,
    {
        proof {
            assert(row * width + width <= size) by (nonlinear_arith)
                requires
                    row + 1 <= height,
                    size == width * height,
                    width >= 0,
            ;
        }
        let start: usize = row * width;
        let mut pair: usize = 0;
        while pair < width / 2
            invariant
                row < height,
                pair <= width / 2,
                start == row * width,
                start + width <= size,
                3 * size <= usize::MAX,
                rgb@.len() == 3 * size,
                out@.len() == 2 * size,
                forall|p: int|
                    0 <= p < size ==> #[trigger] yuyv_pixel(out@, p) == if p < start + 2 * pair
                        && is_paired(width as int, p) {
                        packed_pixel(rgb@, width as int, p)
                    } else {
                        yuyv_pixel(before, p)
                    },
            decreases width / 2 - pair,
        {
            let first: usize = start + 2 * pair;
            proof {
                lemma_position(width as int, row as int, 2 * pair as int);
                lemma_position(width as int, row as int, 2 * pair + 1);
            }
            pack_pair(rgb, width, first, out);
            pair = pair + 1;
        }
        proof {
            assert forall|p: int|
                start + 2 * (width / 2) <= p < start + width implies !is_paired(
                width as int,
                p,
            ) by {
                lemma_position(width as int, row as int, p - start);
            }
            assert((row + 1) * width == row * width + width) by (nonlinear_arith);
        }
        row = row + 1;
    }
    proof {
        assert(height * width == width * height) by (nonlinear_arith);
        assert forall|row: int, pair: int|
            0 <= row < height && 0 <= pair < width as int / 2 implies #[trigger] pair_is_packed(
            rgb@,
            out@,
            width as int,
            row,
            pair,
        ) by {
            law_packed_pairs_follow_the_matrix(
                rgb@,
                width as int,
                height as int,
                before,
                out@,
                row,
                pair,
            );
        }
    }
}

/// How far a product of a coefficient and a whole number is from `c * n`
/// millionths.
proof fn lemma_term(c: nat, x: Number, n: int)
    requires
        c < 2_100_000,
        x is Finite,
        x.signed() == n * precision::one(),
        -200 < n < 256,
        -400_000_000 < c * n < 400_000_000,
    ensures
        ({
            let t = millionths(c).times(x);
            let exact = (c * n) * precision::one();
            &&& t is Finite
            &&& t.signed() * 1_000_000 - exact <= 100 * precision::one()
            &&& exact - t.signed() * 1_000_000 <= 100 * precision::one()
        }),
{
    precision::lemma_ratio_fine(c, 1_000_000);
    let k = millionths(c);
    let w = k.signed();
    let s = x.signed();
    let t = k.times(x);
    let size = if n < 0 {
        -n
    } else {
        n
    };
    assert(c * size < 400_000_000) by (nonlinear_arith)
        requires
            -400_000_000 < c * n < 400_000_000,
            size == n || size == -n,
    ;
    assert(w * size < 1024 * precision::one()) by (nonlinear_arith)
        requires
            w * 1_000_000 - c * precision::one() <= 1_000_000 * precision::fine(),
            c * size < 400_000_000,
            0 <= size < 256,
    ;
    assert(k->units * x->units < 1024 * precision::one() * precision::one())
        by (nonlinear_arith)
        requires
            k->units == w,
            x->units == size * precision::one(),
            w * size < 1024 * precision::one(),
    ;
    precision::lemma_times_close(k, x);
    let f = t.signed();
    assert(w * s == (w * n) * precision::one()) by (nonlinear_arith)
        requires
            s == n * precision::one(),
    ;
    assert(f - w * n <= precision::slack() && w * n - f <= precision::slack());
    assert(w * n * 1_000_000 - (c * n) * precision::one() <= 255_000_000 * precision::fine() && (c
        * n) * precision::one() - w * n * 1_000_000 <= 255_000_000 * precision::fine())
        by (nonlinear_arith)
        requires
            w * 1_000_000 - c * precision::one() <= 1_000_000 * precision::fine(),
            c * precision::one() - w * 1_000_000 <= 1_000_000 * precision::fine(),
            -200 < n < 256,
    ;
}

/// A sample relative to its neutral level is exact.
proof fn lemma_offset(sample: u8, neutral: nat)
    requires
        neutral == 16 || neutral == 128,
    ensures
        offset(sample, neutral) is Finite,
        offset(sample, neutral).signed() == (sample - neutral) * precision::one(),
{
    precision::lemma_whole(sample as nat);
    precision::lemma_whole(neutral);
    precision::lemma_plus_whole(
        Number::whole(sample as nat),
        Number::whole(neutral).negated(),
        sample - neutral,
    );
}

/// What the YUV samples of a colour are, to within 0.0004.
proof fn lemma_samples_close(r: u8, g: u8, b: u8)
    ensures
        ({
            let one = precision::one();
            let y = luma(r, g, b);
            let u = chroma_u(r, g, b);
            let v = chroma_v(r, g, b);
            let exact_y = (256_788 * r + 504_129 * g + 97_906 * b + 16_000_000) * one;
            let exact_u = (-148_223 * r - 290_993 * g + 439_216 * b + 128_000_000) * one;
            let exact_v = (439_216 * r - 367_788 * g - 71_427 * b + 128_000_000) * one;
            &&& y is Finite && u is Finite && v is Finite
            &&& -400 * one <= y.signed() * 1_000_000 - exact_y <= 400 * one
            &&& -400 * one <= u.signed() * 1_000_000 - exact_u <= 400 * one
            &&& -400 * one <= v.signed() * 1_000_000 - exact_v <= 400 * one
        }),
{
    reveal(luma);
    reveal(chroma_u);
    reveal(chroma_v);
    let nr = Number::whole(r as nat);
    let ng = Number::whole(g as nat);
    let nb = Number::whole(b as nat);
    precision::lemma_whole(r as nat);
    precision::lemma_whole(g as nat);
    precision::lemma_whole(b as nat);
    precision::lemma_whole(16);
    precision::lemma_whole(128);

    lemma_term(256_788, nr, r as int);
    lemma_term(504_129, ng, g as int);
    lemma_term(97_906, nb, b as int);
    let y1 = millionths(256_788).times(nr);
    let y2 = y1.plus(millionths(504_129).times(ng));
    let y3 = y2.plus(millionths(97_906).times(nb));
    precision::lemma_plus_close(y1, millionths(504_129).times(ng));
    precision::lemma_plus_close(y2, millionths(97_906).times(nb));
    precision::lemma_plus_close(y3, Number::whole(16));

    lemma_term(148_223, nr, r as int);
    lemma_term(290_993, ng, g as int);
    lemma_term(439_216, nb, b as int);
    let u1 = millionths(148_223).negated().times(nr);
    assert(u1 == millionths(148_223).times(nr).negated());
    let u2 = u1.minus(millionths(290_993).times(ng));
    let u3 = u2.plus(millionths(439_216).times(nb));
    precision::lemma_plus_close(u1, millionths(290_993).times(ng).negated());
    precision::lemma_plus_close(u2, millionths(439_216).times(nb));
    precision::lemma_plus_close(u3, Number::whole(128));

    lemma_term(439_216, nr, r as int);
    lemma_term(367_788, ng, g as int);
    lemma_term(71_427, nb, b as int);
    let v1 = millionths(439_216).times(nr);
    let v2 = v1.minus(millionths(367_788).times(ng));
    let v3 = v2.minus(millionths(71_427).times(nb));
    precision::lemma_plus_close(v1, millionths(367_788).times(ng).negated());
    precision::lemma_plus_close(v2, millionths(71_427).times(nb).negated());
    precision::lemma_plus_close(v3, Number::whole(128));
}

proof fn lemma_luma_close(y: u8)
    ensures
        ({
            let l = scaled_luma(y);
            let exact = (1_164_383 * (y - 16)) * precision::one();
            &&& l is Finite
            &&& -100 * precision::one() <= l.signed() * 1_000_000 - exact <= 100
                * precision::one()
        }),
{
    lemma_offset(y, 16);
    lemma_term(1_164_383, offset(y, 16), y - 16);
    precision::lemma_times_commutes(offset(y, 16), millionths(1_164_383));
}

/// The red that a YUV sample stands for, to within 0.0004.
proof fn lemma_red_close(y: u8, u: u8, v: u8)
    ensures
        ({
            let r = red(y, u, v);
            let exact = (1_164_383 * (y - 16) + 1_596_027 * (v - 128)) * precision::one();
            &&& r is Finite
            &&& -400 * precision::one() <= r.signed() * 1_000_000 - exact <= 400
                * precision::one()
        }),
{
    reveal(red);
    lemma_luma_close(y);
    lemma_offset(v, 128);
    lemma_term(1_596_027, offset(v, 128), v - 128);
    precision::lemma_plus_close(scaled_luma(y), millionths(1_596_027).times(offset(v, 128)));
}

/// The green that a YUV sample stands for, to within 0.0004.
proof fn lemma_green_close(y: u8, u: u8, v: u8)
    ensures
        ({
            let g = green(y, u, v);
            let exact = (1_164_383 * (y - 16) - 391_762 * (u - 128) - 812_968 * (v - 128))
                * precision::one();
            &&& g is Finite
            &&& -400 * precision::one() <= g.signed() * 1_000_000 - exact <= 400
                * precision::one()
        }),
{
    reveal(green);
    let l = scaled_luma(y);
    let nu = offset(u, 128);
    let nv = offset(v, 128);
    lemma_luma_close(y);
    lemma_offset(u, 128);
    lemma_offset(v, 128);
    lemma_term(391_762, nu, u - 128);
    lemma_term(812_968, nv, v - 128);
    let g1 = l.minus(millionths(391_762).times(nu));
    precision::lemma_plus_close(l, millionths(391_762).times(nu).negated());
    precision::lemma_plus_close(g1, millionths(812_968).times(nv).negated());
}

/// The blue that a YUV sample stands for, to within 0.0004.
proof fn lemma_blue_close(y: u8, u: u8, v: u8)
    ensures
        ({
            let b = blue(y, u, v);
            let exact = (1_164_383 * (y - 16) + 2_017_232 * (u - 128)) * precision::one();
            &&& b is Finite
            &&& -400 * precision::one() <= b.signed() * 1_000_000 - exact <= 400
                * precision::one()
        }),
{
    reveal(blue);
    lemma_luma_close(y);
    lemma_offset(u, 128);
    lemma_term(2_017_232, offset(u, 128), u - 128);
    precision::lemma_plus_close(scaled_luma(y), millionths(2_017_232).times(offset(u, 128)));
}

/// A normalized byte is the number nearest to `byte / 255`: finite, not below
/// zero, not above one, and off by no more than 2^-22.
pub proof fn law_normalized(byte: u8)
    ensures
        normalized(byte as nat) == Number::ratio(byte as nat, 255),
        normalized(byte as nat) matches Number::Finite { negative, units } && !negative && units
            <= precision::one() && units * 255 - byte * precision::one() <= 255
            * precision::fine() && byte * precision::one() - units * 255 <= 255
            * precision::fine(),
{
    reveal(normalized);
    precision::lemma_whole(byte as nat);
    precision::lemma_whole(255);
    precision::lemma_one();
    rounding::lemma_rounded_scales(
        (byte * precision::one()) as nat,
        255,
        precision::one() as nat,
    );
    precision::lemma_ratio_fine(byte as nat, 255);
    if byte == 255 {
        rounding::lemma_rounded_scales(precision::one() as nat, 1, 255);
        precision::lemma_whole(1);
    }
}

/// Scaling a normalized byte back gives the byte.
pub proof fn law_normalized_reads_back(byte: u8)
    ensures
        normalized(byte as nat).times(Number::whole(255)).nearest_byte() == byte,
{
    law_normalized(byte);
    precision::lemma_whole(255);
    let n = normalized(byte as nat);
    let units = n->units;
    assert(units * (255 * precision::one()) < 1024 * precision::one() * precision::one())
        by (nonlinear_arith)
        requires
            units <= precision::one(),
    ;
    precision::lemma_times_close(n, Number::whole(255));
    let full = Number::whole(255).signed();
    assert(n.signed() * full == (255 * units) * precision::one()) by (nonlinear_arith)
        requires
            n.signed() == units,
            full == 255 * precision::one(),
    ;
    precision::lemma_nearest_byte(n.times(Number::whole(255)), byte as int);
}

/// A byte stands for an exact value, in millionths: it is off by no more than
/// 0.501, except where the value lies beyond the bytes.
pub open spec fn stands_for(byte: nat, exact: int) -> bool {
    &&& byte < 255 ==> exact <= byte * 1_000_000 + 501_000
    &&& byte > 0 ==> exact >= byte * 1_000_000 - 501_000
}

proof fn lemma_stands_for(a: Number, exact: int)
    requires
        a is Finite,
        -400 * precision::one() <= a.signed() * 1_000_000 - exact * precision::one() <= 400
            * precision::one(),
    ensures
        stands_for(a.nearest_byte(), exact),
{
    precision::lemma_nearest_byte_close(a);
    let byte = a.nearest_byte();
    if byte < 255 {
        lemma_below(a.signed(), byte as int, exact, precision::one());
    }
    if byte > 0 {
        lemma_below(-a.signed(), -(byte as int), -exact, precision::one());
    }
}

proof fn lemma_below(s: int, byte: int, exact: int, one: int)
    requires
        2 * s <= (2 * byte + 1) * one,
        exact * one <= s * 1_000_000 + 400 * one,
        one > 0,
    ensures
        exact <= byte * 1_000_000 + 501_000,
{
    let limit = 500_400 + byte * 1_000_000;
    assert(exact <= limit) by (nonlinear_arith)
        requires
            2 * s <= (2 * byte + 1) * one,
            exact * one <= s * 1_000_000 + 400 * one,
            limit == 500_400 + byte * 1_000_000,
            one > 0,
    ;
}

/// The colour of a sample is the one that the BT.601 limited-range matrix gives
/// for it.
pub proof fn law_colour_follows_the_matrix(y: u8, u: u8, v: u8)
    ensures
        stands_for(
            red(y, u, v).nearest_byte(),
            1_164_383 * (y - 16) + 1_596_027 * (v - 128),
        ),
        stands_for(
            green(y, u, v).nearest_byte(),
            1_164_383 * (y - 16) - 391_762 * (u - 128) - 812_968 * (v - 128),
        ),
        stands_for(
            blue(y, u, v).nearest_byte(),
            1_164_383 * (y - 16) + 2_017_232 * (u - 128),
        ),
{
    lemma_red_close(y, u, v);
    lemma_green_close(y, u, v);
    lemma_blue_close(y, u, v);
    lemma_stands_for(red(y, u, v), 1_164_383 * (y - 16) + 1_596_027 * (v - 128));
    lemma_stands_for(
        green(y, u, v),
        1_164_383 * (y - 16) - 391_762 * (u - 128) - 812_968 * (v - 128),
    );
    lemma_stands_for(blue(y, u, v), 1_164_383 * (y - 16) + 2_017_232 * (u - 128));
}

/// The sample of a colour is the one that the inverse of the matrix gives for
/// it.
pub proof fn law_sample_follows_the_matrix(r: u8, g: u8, b: u8)
    ensures
        stands_for(
            luma(r, g, b).nearest_byte(),
            256_788 * r + 504_129 * g + 97_906 * b + 16_000_000,
        ),
        stands_for(
            chroma_u(r, g, b).nearest_byte(),
            -148_223 * r - 290_993 * g + 439_216 * b + 128_000_000,
        ),
        stands_for(
            chroma_v(r, g, b).nearest_byte(),
            439_216 * r - 367_788 * g - 71_427 * b + 128_000_000,
        ),
{
    lemma_samples_close(r, g, b);
    lemma_stands_for(luma(r, g, b), 256_788 * r + 504_129 * g + 97_906 * b + 16_000_000);
    lemma_stands_for(
        chroma_u(r, g, b),
        -148_223 * r - 290_993 * g + 439_216 * b + 128_000_000,
    );
    lemma_stands_for(chroma_v(r, g, b), 439_216 * r - 367_788 * g - 71_427 * b + 128_000_000);
}

/// Every colour survives the way to YUV and back: no channel is off by more
/// than 2.
pub proof fn law_colour_round_trip(r: u8, g: u8, b: u8, y: u8, u: u8, v: u8)
    requires
        y == luma(r, g, b).nearest_byte(),
        u == chroma_u(r, g, b).nearest_byte(),
        v == chroma_v(r, g, b).nearest_byte(),
    ensures
        -2 <= red(y, u, v).nearest_byte() - r <= 2,
        -2 <= green(y, u, v).nearest_byte() - g <= 2,
        -2 <= blue(y, u, v).nearest_byte() - b <= 2,
{
    lemma_samples_close(r, g, b);
    precision::lemma_nearest_byte_close(luma(r, g, b));
    precision::lemma_nearest_byte_close(chroma_u(r, g, b));
    precision::lemma_nearest_byte_close(chroma_v(r, g, b));
    lemma_red_close(y, u, v);
    lemma_green_close(y, u, v);
    lemma_blue_close(y, u, v);
    precision::lemma_nearest_byte_close(red(y, u, v));
    precision::lemma_nearest_byte_close(green(y, u, v));
    precision::lemma_nearest_byte_close(blue(y, u, v));
}

/// Whether a value from 0 to 1 shows an exact level, in millionths, brought into
/// the range of a byte: 255 times as much is off by no more than 0.502.
pub open spec fn shows_level(value: Number, exact: int) -> bool {
    let level = if exact < 0 {
        0
    } else if exact > 255_000_000 {
        255_000_000
    } else {
        exact
    };
    value is Finite && -502_000 * precision::one() <= value.signed() * 255_000_000 - level
        * precision::one() <= 502_000 * precision::one()
}

proof fn lemma_shows_level(a: Number, exact: int)
    requires
        a.nearest_byte() <= 255,
        stands_for(a.nearest_byte(), exact),
    ensures
        shows_level(normalized(a.nearest_byte()), exact),
{
    law_normalized(a.nearest_byte() as u8);
}

/// Whether the frame `out` is what a conversion of a YUYV frame gives, on top of
/// `before`.
pub open spec fn is_unpacked(
    yuyv: Seq<u8>,
    width: int,
    height: int,
    before: Seq<Single>,
    out: Seq<Single>,
) -> bool {
    forall|p: int|
        0 <= p < width * height ==> #[trigger] planar_pixel(out, width * height, p)
            == if is_paired(width, p) {
            colour_of(yuyv, width, p)
        } else {
            planar_pixel(before, width * height, p)
        }
}

/// Whether the YUYV frame `out` is what packing an interleaved RGB image gives,
/// on top of `before`.
pub open spec fn is_packed(
    rgb: Seq<u8>,
    width: int,
    height: int,
    before: Seq<u8>,
    out: Seq<u8>,
) -> bool {
    forall|p: int|
        0 <= p < width * height ==> #[trigger] yuyv_pixel(out, p) == if is_paired(width, p) {
            packed_pixel(rgb, width, p)
        } else {
            yuyv_pixel(before, p)
        }
}

/// Whether a pair of pixels shows the colours of its four bytes, which are the
/// luma of the first pixel, the blue difference of both, the luma of the second
/// pixel, and the red difference of both.
pub open spec fn pair_is_unpacked(
    yuyv: Seq<u8>,
    out: Seq<Single>,
    width: int,
    height: int,
    row: int,
    pair: int,
) -> bool {
    let plane = width * height;
    let a = row * width + 2 * pair;
    let u = yuyv[2 * a + 1] - 128;
    let v = yuyv[2 * a + 3] - 128;
    let first = 1_164_383 * (yuyv[2 * a] - 16);
    let second = 1_164_383 * (yuyv[2 * a + 2] - 16);
    &&& shows_level(out[a]@, first + 1_596_027 * v)
    &&& shows_level(out[plane + a]@, first - 391_762 * u - 812_968 * v)
    &&& shows_level(out[2 * plane + a]@, first + 2_017_232 * u)
    &&& shows_level(out[a + 1]@, second + 1_596_027 * v)
    &&& shows_level(out[plane + a + 1]@, second - 391_762 * u - 812_968 * v)
    &&& shows_level(out[2 * plane + a + 1]@, second + 2_017_232 * u)
}

/// Where the two pixels of a pair stand.
pub proof fn lemma_pair_at(width: int, height: int, row: int, pair: int)
    requires
        0 <= row < height,
        0 <= pair < width / 2,
    ensures
        ({
            let a = row * width + 2 * pair;
            &&& 0 <= a
            &&& a + 1 < width * height
            &&& is_paired(width, a)
            &&& is_paired(width, a + 1)
            &&& pair_start(width, a) == a
            &&& pair_start(width, a + 1) == a
            &&& a % width % 2 == 0
            &&& (a + 1) % width % 2 == 1
        }),
{
    lemma_position(width, row, 2 * pair);
    lemma_position(width, row, 2 * pair + 1);
    assert(0 <= row * width && row * width + width <= width * height) by (nonlinear_arith)
        requires
            0 <= row,
            row + 1 <= height,
            width > 0,
    ;
}

/// Every pair of pixels of a converted frame shows the colours that BT.601 gives
/// for the four bytes of the pair.
pub proof fn law_frame_follows_the_matrix(
    yuyv: Seq<u8>,
    width: int,
    height: int,
    before: Seq<Single>,
    out: Seq<Single>,
    row: int,
    pair: int,
)
    requires
        is_unpacked(yuyv, width, height, before, out),
        0 <= row < height,
        0 <= pair < width / 2,
    ensures
        ({
            let plane = width * height;
            let a = row * width + 2 * pair;
            let u = yuyv[2 * a + 1] - 128;
            let v = yuyv[2 * a + 3] - 128;
            let first = 1_164_383 * (yuyv[2 * a] - 16);
            let second = 1_164_383 * (yuyv[2 * a + 2] - 16);
            &&& shows_level(out[a]@, first + 1_596_027 * v)
            &&& shows_level(out[plane + a]@, first - 391_762 * u - 812_968 * v)
            &&& shows_level(out[2 * plane + a]@, first + 2_017_232 * u)
            &&& shows_level(out[a + 1]@, second + 1_596_027 * v)
            &&& shows_level(out[plane + a + 1]@, second - 391_762 * u - 812_968 * v)
            &&& shows_level(out[2 * plane + a + 1]@, second + 2_017_232 * u)
        }),
{
    let plane = width * height;
    let a = row * width + 2 * pair;
    lemma_pair_at(width, height, row, pair);
    let u = yuyv[2 * a + 1];
    let v = yuyv[2 * a + 3];
    assert(planar_pixel(out, plane, a) == colour_of(yuyv, width, a));
    assert(planar_pixel(out, plane, a + 1) == colour_of(yuyv, width, a + 1));
    lemma_colour_shows(yuyv[2 * a], u, v);
    lemma_colour_shows(yuyv[2 * a + 2], u, v);
}

proof fn lemma_colour_shows(y: u8, u: u8, v: u8)
    ensures
        shows_level(
            normalized(red(y, u, v).nearest_byte()),
            1_164_383 * (y - 16) + 1_596_027 * (v - 128),
        ),
        shows_level(
            normalized(green(y, u, v).nearest_byte()),
            1_164_383 * (y - 16) - 391_762 * (u - 128) - 812_968 * (v - 128),
        ),
        shows_level(
            normalized(blue(y, u, v).nearest_byte()),
            1_164_383 * (y - 16) + 2_017_232 * (u - 128),
        ),
{
    law_colour_follows_the_matrix(y, u, v);
    lemma_shows_level(red(y, u, v), 1_164_383 * (y - 16) + 1_596_027 * (v - 128));
    lemma_shows_level(
        green(y, u, v),
        1_164_383 * (y - 16) - 391_762 * (u - 128) - 812_968 * (v - 128),
    );
    lemma_shows_level(blue(y, u, v), 1_164_383 * (y - 16) + 2_017_232 * (u - 128));
}

/// The two pixels of a pair share their chroma: where their luma is the same, so
/// is their colour.
pub proof fn law_pair_shares_its_chroma(
    yuyv: Seq<u8>,
    width: int,
    height: int,
    before: Seq<Single>,
    out: Seq<Single>,
    row: int,
    pair: int,
)
    requires
        is_unpacked(yuyv, width, height, before, out),
        0 <= row < height,
        0 <= pair < width / 2,
        yuyv[2 * (row * width + 2 * pair)] == yuyv[2 * (row * width + 2 * pair) + 2],
    ensures
        ({
            let plane = width * height;
            let a = row * width + 2 * pair;
            &&& out[a]@ == out[a + 1]@
            &&& out[plane + a]@ == out[plane + a + 1]@
            &&& out[2 * plane + a]@ == out[2 * plane + a + 1]@
        }),
{
    let plane = width * height;
    let a = row * width + 2 * pair;
    lemma_pair_at(width, height, row, pair);
    assert(planar_pixel(out, plane, a) == colour_of(yuyv, width, a));
    assert(planar_pixel(out, plane, a + 1) == colour_of(yuyv, width, a + 1));
}

/// The last column of a frame of odd width is neither converted nor packed: it
/// stays what it was.
pub proof fn law_last_column_stays(
    yuyv: Seq<u8>,
    width: int,
    height: int,
    before: Seq<Single>,
    out: Seq<Single>,
    rgb: Seq<u8>,
    packed_before: Seq<u8>,
    packed: Seq<u8>,
    row: int,
)
    requires
        is_unpacked(yuyv, width, height, before, out),
        is_packed(rgb, width, height, packed_before, packed),
        width > 0,
        width % 2 == 1,
        0 <= row < height,
    ensures
        ({
            let plane = width * height;
            let p = row * width + width - 1;
            &&& out[p]@ == before[p]@
            &&& out[plane + p]@ == before[plane + p]@
            &&& out[2 * plane + p]@ == before[2 * plane + p]@
            &&& packed[2 * p] == packed_before[2 * p]
            &&& packed[2 * p + 1] == packed_before[2 * p + 1]
        }),
{
    let plane = width * height;
    let p = row * width + width - 1;
    lemma_position(width, row, width - 1);
    assert(0 <= row * width && row * width + width <= width * height) by (nonlinear_arith)
        requires
            0 <= row,
            row + 1 <= height,
            width > 0,
    ;
    assert(planar_pixel(out, plane, p) == planar_pixel(before, plane, p));
    assert(yuyv_pixel(packed, p) == yuyv_pixel(packed_before, p));
}

/// Whether a byte is the average of two exact levels, in millionths: each is
/// rounded, and so is their average, downwards.
pub open spec fn is_average(byte: u8, first: int, second: int) -> bool {
    -2_002_000 <= 2_000_000 * byte - (first + second) <= 1_002_000
}

/// Whether the four bytes of a pair hold the colours of its two pixels: the luma
/// of the first, the average blue difference, the luma of the second, and the
/// average red difference.
pub open spec fn pair_is_packed(
    rgb: Seq<u8>,
    out: Seq<u8>,
    width: int,
    row: int,
    pair: int,
) -> bool {
    let a = row * width + 2 * pair;
    let (r, g, b) = (rgb[3 * a] as int, rgb[3 * a + 1] as int, rgb[3 * a + 2] as int);
    let (s, h, c) = (rgb[3 * a + 3] as int, rgb[3 * a + 4] as int, rgb[3 * a + 5] as int);
    &&& stands_for(out[2 * a] as nat, 256_788 * r + 504_129 * g + 97_906 * b + 16_000_000)
    &&& stands_for(out[2 * a + 2] as nat, 256_788 * s + 504_129 * h + 97_906 * c + 16_000_000)
    &&& is_average(
        out[2 * a + 1],
        -148_223 * r - 290_993 * g + 439_216 * b + 128_000_000,
        -148_223 * s - 290_993 * h + 439_216 * c + 128_000_000,
    )
    &&& is_average(
        out[2 * a + 3],
        439_216 * r - 367_788 * g - 71_427 * b + 128_000_000,
        439_216 * s - 367_788 * h - 71_427 * c + 128_000_000,
    )
}

/// Every pair of a packed frame holds the samples that the inverse of the matrix
/// gives for its two pixels.
pub proof fn law_packed_pairs_follow_the_matrix(
    rgb: Seq<u8>,
    width: int,
    height: int,
    before: Seq<u8>,
    out: Seq<u8>,
    row: int,
    pair: int,
)
    requires
        is_packed(rgb, width, height, before, out),
        0 <= row < height,
        0 <= pair < width / 2,
    ensures
        ({
            let a = row * width + 2 * pair;
            let (r, g, b) = (rgb[3 * a] as int, rgb[3 * a + 1] as int, rgb[3 * a + 2] as int);
            let (s, h, c) = (rgb[3 * a + 3] as int, rgb[3 * a + 4] as int, rgb[3 * a + 5] as int);
            &&& stands_for(
                out[2 * a] as nat,
                256_788 * r + 504_129 * g + 97_906 * b + 16_000_000,
            )
            &&& stands_for(
                out[2 * a + 2] as nat,
                256_788 * s + 504_129 * h + 97_906 * c + 16_000_000,
            )
            &&& is_average(
                out[2 * a + 1],
                -148_223 * r - 290_993 * g + 439_216 * b + 128_000_000,
                -148_223 * s - 290_993 * h + 439_216 * c + 128_000_000,
            )
            &&& is_average(
                out[2 * a + 3],
                439_216 * r - 367_788 * g - 71_427 * b + 128_000_000,
                439_216 * s - 367_788 * h - 71_427 * c + 128_000_000,
            )
        }),
{
    let a = row * width + 2 * pair;
    lemma_pair_at(width, height, row, pair);
    assert(yuyv_pixel(out, a) == packed_pixel(rgb, width, a));
    assert(yuyv_pixel(out, a + 1) == packed_pixel(rgb, width, a + 1));
    lemma_pair_is_packed(rgb, width, height, out, row, pair);
}

pub proof fn lemma_pair_is_packed(
    rgb: Seq<u8>,
    width: int,
    height: int,
    out: Seq<u8>,
    row: int,
    pair: int,
)
    requires
        0 <= row < height,
        0 <= pair < width / 2,
        ({
            let a = row * width + 2 * pair;
            &&& yuyv_pixel(out, a) == packed_pixel(rgb, width, a)
            &&& yuyv_pixel(out, a + 1) == packed_pixel(rgb, width, a + 1)
        }),
    ensures
        pair_is_packed(rgb, out, width, row, pair),
{
    let a = row * width + 2 * pair;
    lemma_pair_at(width, height, row, pair);
    let (r, g, b) = (rgb[3 * a], rgb[3 * a + 1], rgb[3 * a + 2]);
    let (s, h, c) = (rgb[3 * a + 3], rgb[3 * a + 4], rgb[3 * a + 5]);
    law_sample_follows_the_matrix(r, g, b);
    law_sample_follows_the_matrix(s, h, c);
    let u0 = chroma_u(r, g, b).nearest_byte();
    let u1 = chroma_u(s, h, c).nearest_byte();
    let v0 = chroma_v(r, g, b).nearest_byte();
    let v1 = chroma_v(s, h, c).nearest_byte();
    lemma_chroma_inside(r, g, b);
    lemma_chroma_inside(s, h, c);
    lemma_average((u0 + u1) as int / 2, u0 as int, u1 as int);
    lemma_average((v0 + v1) as int / 2, v0 as int, v1 as int);
}

proof fn lemma_average(byte: int, a: int, b: int)
    requires
        byte == (a + b) / 2,
    ensures
        a + b - 1 <= 2 * byte <= a + b,
{
}

/// Chroma is never clamped.
proof fn lemma_chroma_inside(r: u8, g: u8, b: u8)
    ensures
        0 < chroma_u(r, g, b).nearest_byte() < 255,
        0 < chroma_v(r, g, b).nearest_byte() < 255,
{
    law_sample_follows_the_matrix(r, g, b);
    precision::lemma_nearest_byte_close(chroma_u(r, g, b));
    precision::lemma_nearest_byte_close(chroma_v(r, g, b));
    lemma_samples_close(r, g, b);
}

proof fn lemma_samples_fit(r: u8, g: u8, b: u8)
    ensures
        luma(r, g, b).nearest_byte() <= 255,
        chroma_u(r, g, b).nearest_byte() <= 255,
        chroma_v(r, g, b).nearest_byte() <= 255,
{
    lemma_samples_close(r, g, b);
    precision::lemma_nearest_byte_close(luma(r, g, b));
    precision::lemma_nearest_byte_close(chroma_u(r, g, b));
    precision::lemma_nearest_byte_close(chroma_v(r, g, b));
}

/// A normalized byte that is within 2 of another one.
proof fn lemma_normalized_near(byte: nat, colour: u8)
    requires
        byte <= 255,
        -2 <= byte - colour <= 2,
    ensures
        -2_001 * precision::one() <= 255_000 * normalized(byte).signed() - 1000 * colour
            * precision::one() <= 2_001 * precision::one(),
{
    law_normalized(byte as u8);
}

proof fn lemma_comes_back(r: u8, g: u8, b: u8)
    ensures
        ({
            let y = luma(r, g, b).nearest_byte() as u8;
            let u = chroma_u(r, g, b).nearest_byte() as u8;
            let v = chroma_v(r, g, b).nearest_byte() as u8;
            let one = precision::one();
            &&& -2_001 * one <= 255_000 * normalized(red(y, u, v).nearest_byte()).signed() - 1000
                * r * one <= 2_001 * one
            &&& -2_001 * one <= 255_000 * normalized(green(y, u, v).nearest_byte()).signed() - 1000
                * g * one <= 2_001 * one
            &&& -2_001 * one <= 255_000 * normalized(blue(y, u, v).nearest_byte()).signed() - 1000
                * b * one <= 2_001 * one
        }),
{
    let y = luma(r, g, b).nearest_byte() as u8;
    let u = chroma_u(r, g, b).nearest_byte() as u8;
    let v = chroma_v(r, g, b).nearest_byte() as u8;
    lemma_samples_fit(r, g, b);
    law_colour_round_trip(r, g, b, y, u, v);
    lemma_colours_fit(y, u, v);
    lemma_normalized_near(red(y, u, v).nearest_byte(), r);
    lemma_normalized_near(green(y, u, v).nearest_byte(), g);
    lemma_normalized_near(blue(y, u, v).nearest_byte(), b);
}

proof fn lemma_colours_fit(y: u8, u: u8, v: u8)
    ensures
        red(y, u, v).nearest_byte() <= 255,
        green(y, u, v).nearest_byte() <= 255,
        blue(y, u, v).nearest_byte() <= 255,
{
    lemma_red_close(y, u, v);
    lemma_green_close(y, u, v);
    lemma_blue_close(y, u, v);
    precision::lemma_nearest_byte_close(red(y, u, v));
    precision::lemma_nearest_byte_close(green(y, u, v));
    precision::lemma_nearest_byte_close(blue(y, u, v));
}

/// A frame of one colour, packed and unpacked again, is within 2 of that colour
/// at every pixel of a pair.
pub proof fn law_plain_frame_round_trip(
    rgb: Seq<u8>,
    width: int,
    height: int,
    blank: Seq<u8>,
    yuyv: Seq<u8>,
    before: Seq<Single>,
    out: Seq<Single>,
    colour: (u8, u8, u8),
    row: int,
    column: int,
)
    requires
        forall|p: int|
            0 <= p < width * height ==> #[trigger] rgb[3 * p] == colour.0 && rgb[3 * p + 1]
                == colour.1 && rgb[3 * p + 2] == colour.2,
        is_packed(rgb, width, height, blank, yuyv),
        is_unpacked(yuyv, width, height, before, out),
        0 <= row < height,
        0 <= column < width / 2 * 2,
    ensures
        ({
            let plane = width * height;
            let p = row * width + column;
            let one = precision::one();
            &&& -2_001 * one <= 255_000 * out[p]@.signed() - 1000 * colour.0 * one <= 2_001 * one
            &&& -2_001 * one <= 255_000 * out[plane + p]@.signed() - 1000 * colour.1 * one
                <= 2_001 * one
            &&& -2_001 * one <= 255_000 * out[2 * plane + p]@.signed() - 1000 * colour.2 * one
                <= 2_001 * one
        }),
{
    let plane = width * height;
    let pair = column / 2;
    let a = row * width + 2 * pair;
    let p = row * width + column;
    lemma_pair_at(width, height, row, pair);
    let (r, g, b) = colour;
    assert(rgb[3 * a] == r && rgb[3 * a + 1] == g && rgb[3 * a + 2] == b);
    assert(rgb[3 * (a + 1)] == r);
    let y = luma(r, g, b).nearest_byte();
    let u = chroma_u(r, g, b).nearest_byte();
    let v = chroma_v(r, g, b).nearest_byte();
    lemma_samples_fit(r, g, b);
    assert(yuyv_pixel(yuyv, a) == packed_pixel(rgb, width, a));
    assert(yuyv_pixel(yuyv, a + 1) == packed_pixel(rgb, width, a + 1));
    assert(yuyv[2 * a] == y && yuyv[2 * a + 1] == u && yuyv[2 * a + 2] == y && yuyv[2 * a + 3]
        == v);
    lemma_comes_back(r, g, b);
    assert(planar_pixel(out, plane, p) == colour_of(yuyv, width, p));
    assert(p == a || p == a + 1);
}

} // verus!
