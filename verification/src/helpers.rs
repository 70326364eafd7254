//! Pixel arithmetic on packed 32-bit colours: alpha compositing and
//! weighted blending of three colours.
use vstd::prelude::*;

verus! {

/// The weight of byte number `k` (0 = lowest) inside a 32-bit word.
pub open spec fn byte_weight(k: int) -> int {
    if k <= 0 {
        1
    } else if k == 1 {
        0x100
    } else if k == 2 {
        0x1_0000
    } else {
        0x100_0000
    }
}

/// Byte number `k` (0 = lowest, 3 = highest) of the word `c`.
pub open spec fn byte_of(c: u32, k: int) -> int {
    (c as int / byte_weight(k)) % 0x100
}

/// The word whose bytes, from the highest down, are `b3`, `b2`, `b1`, `b0`.
pub open spec fn from_bytes(b3: int, b2: int, b1: int, b0: int) -> int {
    b3 * 0x100_0000 + b2 * 0x1_0000 + b1 * 0x100 + b0
}

pub open spec fn min_int(a: int, b: int) -> int {
    if a <= b {
        a
    } else {
        b
    }
}

pub open spec fn max_int(a: int, b: int) -> int {
    if a >= b {
        a
    } else {
        b
    }
}

/// One colour channel of `src` laid over `dst` with opacity `a` out of 255.
pub open spec fn mix(src: int, dst: int, a: int) -> int {
    (src * a + dst * (255 - a)) / 255
}

/// The ARGB pixel that results from compositing `colour` over `dst`:
/// the red, green and blue channels are mixed by the colour's alpha, and
/// the alphas add up, saturating at 255.
pub open spec fn over(dst: u32, colour: u32) -> u32 {
    let a = byte_of(colour, 3);
    from_bytes(
        min_int(255, a + byte_of(dst, 3)),
        mix(byte_of(colour, 2), byte_of(dst, 2), a),
        mix(byte_of(colour, 1), byte_of(dst, 1), a),
        mix(byte_of(colour, 0), byte_of(dst, 0), a),
    ) as u32
}

/// The weighted sum, over the three colours, of byte number `k`.
pub open spec fn weighted_byte(c1: u32, c2: u32, c3: u32, b1: u32, b2: u32, b3: u32, k: int) -> int {
    byte_of(c1, k) * b1 + byte_of(c2, k) * b2 + byte_of(c3, k) * b3
}

/// Whether the weighted sums of every byte fit in a `u32`.
pub open spec fn blend_fits(c1: u32, c2: u32, c3: u32, b1: u32, b2: u32, b3: u32) -> bool {
    forall|k: int| 0 <= k < 4 ==> #[trigger] weighted_byte(c1, c2, c3, b1, b2, b3, k) <= u32::MAX
}

/// Byte `k` of the blend: the weighted sum scaled down by 255, capped at 255.
pub open spec fn blended_byte(c1: u32, c2: u32, c3: u32, b1: u32, b2: u32, b3: u32, k: int) -> int {
    min_int(255, weighted_byte(c1, c2, c3, b1, b2, b3, k) / 255)
}

/// The colour whose every byte is the weighted blend of that byte of the three colours.
pub open spec fn blend(c1: u32, c2: u32, c3: u32, b1: u32, b2: u32, b3: u32) -> u32 {
    from_bytes(
        blended_byte(c1, c2, c3, b1, b2, b3, 3),
        blended_byte(c1, c2, c3, b1, b2, b3, 2),
        blended_byte(c1, c2, c3, b1, b2, b3, 1),
        blended_byte(c1, c2, c3, b1, b2, b3, 0),
    ) as u32
}

/// Reading a byte with a shift and a mask is the arithmetic byte.
pub proof fn lemma_byte_extract(c: u32)
    ensures
        (c >> 24u32) & 0xFFu32 == byte_of(c, 3),
        (c >> 16u32) & 0xFFu32 == byte_of(c, 2),
        (c >> 8u32) & 0xFFu32 == byte_of(c, 1),
        c & 0xFFu32 == byte_of(c, 0),
        c >> 24u32 == byte_of(c, 3),
        byte_of(c, 3) < 256,
        byte_of(c, 2) < 256,
        byte_of(c, 1) < 256,
        byte_of(c, 0) < 256,
        byte_of(c, 3) >= 0,
        byte_of(c, 2) >= 0,
        byte_of(c, 1) >= 0,
        byte_of(c, 0) >= 0,
{
    assert((c >> 24u32) & 0xFFu32 == (c / 0x100_0000u32) % 0x100u32) by (bit_vector);
    assert((c >> 16u32) & 0xFFu32 == (c / 0x1_0000u32) % 0x100u32) by (bit_vector);
    assert((c >> 8u32) & 0xFFu32 == (c / 0x100u32) % 0x100u32) by (bit_vector);
    assert(c & 0xFFu32 == c % 0x100u32) by (bit_vector);
    assert(c >> 24u32 == c / 0x100_0000u32) by (bit_vector);
    assert(c / 0x100_0000u32 < 0x100u32) by (bit_vector);
}

/// Packing four bytes with shifts and ors is the arithmetic word.
pub proof fn lemma_pack(b3: u32, b2: u32, b1: u32, b0: u32)
    requires
        b3 < 256,
        b2 < 256,
        b1 < 256,
        b0 < 256,
    ensures
        (b3 << 24u32) | (b2 << 16u32) | (b1 << 8u32) | b0 == from_bytes(
            b3 as int,
            b2 as int,
            b1 as int,
            b0 as int,
        ),
        (b2 << 16u32) | (b1 << 8u32) | b0 | (b3 << 24u32) == from_bytes(
            b3 as int,
            b2 as int,
            b1 as int,
            b0 as int,
        ),
{
    assert((b3 << 24u32) | (b2 << 16u32) | (b1 << 8u32) | b0 == b3 * 0x100_0000u32 + b2
        * 0x1_0000u32 + b1 * 0x100u32 + b0) by (bit_vector)
        requires
            b3 < 256,
            b2 < 256,
            b1 < 256,
            b0 < 256,
    ;
    assert((b2 << 16u32) | (b1 << 8u32) | b0 | (b3 << 24u32) == b3 * 0x100_0000u32 + b2
        * 0x1_0000u32 + b1 * 0x100u32 + b0) by (bit_vector)
        requires
            b3 < 256,
            b2 < 256,
            b1 < 256,
            b0 < 256,
    ;
}

/// The bytes of a word built from bytes are those bytes.
pub proof fn lemma_bytes_of_from_bytes(b3: int, b2: int, b1: int, b0: int)
    requires
        0 <= b3 < 256,
        0 <= b2 < 256,
        0 <= b1 < 256,
        0 <= b0 < 256,
    ensures
        0 <= from_bytes(b3, b2, b1, b0) <= u32::MAX,
        byte_of(from_bytes(b3, b2, b1, b0) as u32, 3) == b3,
        byte_of(from_bytes(b3, b2, b1, b0) as u32, 2) == b2,
        byte_of(from_bytes(b3, b2, b1, b0) as u32, 1) == b1,
        byte_of(from_bytes(b3, b2, b1, b0) as u32, 0) == b0,
{
    let w = from_bytes(b3, b2, b1, b0);
    assert(w / 0x100_0000 == b3);
    assert(w / 0x1_0000 == b3 * 0x100 + b2);
    assert(w / 0x100 == b3 * 0x1_0000 + b2 * 0x100 + b1);
    assert((b3 * 0x100 + b2) % 0x100 == b2);
    assert((b3 * 0x1_0000 + b2 * 0x100 + b1) % 0x100 == b1);
    assert(w % 0x100 == b0);
}

/// A word is the word built from its own bytes.
pub proof fn lemma_from_bytes_of(c: u32)
    ensures
        from_bytes(byte_of(c, 3), byte_of(c, 2), byte_of(c, 1), byte_of(c, 0)) == c,
{
    let c3 = (c >> 24u32) & 0xFFu32;
    let c2 = (c >> 16u32) & 0xFFu32;
    let c1 = (c >> 8u32) & 0xFFu32;
    let c0 = c & 0xFFu32;
    lemma_byte_extract(c);
    assert(c3 * 0x100_0000u32 + c2 * 0x1_0000u32 + c1 * 0x100u32 + c0 == c) by (bit_vector)
        requires
            c3 == (c >> 24u32) & 0xFFu32,
            c2 == (c >> 16u32) & 0xFFu32,
            c1 == (c >> 8u32) & 0xFFu32,
            c0 == c & 0xFFu32,
    ;
}

/// A mixed channel stays between the two channels it mixes.
pub proof fn lemma_mix_bounds(src: int, dst: int, a: int)
    requires
        0 <= src < 256,
        0 <= dst < 256,
        0 <= a < 256,
    ensures
        min_int(src, dst) <= mix(src, dst, a) <= max_int(src, dst),
        0 <= mix(src, dst, a) < 256,
        mix(src, dst, 255) == src,
        mix(src, dst, 0) == dst,
{
    let lo = min_int(src, dst);
    let hi = max_int(src, dst);
    let t = src * a + dst * (255 - a);
    assert(lo * 255 <= t <= hi * 255) by (nonlinear_arith)
        requires
            lo <= src <= hi,
            lo <= dst <= hi,
            0 <= a <= 255,
            t == src * a + dst * (255 - a),
    ;
    assert(lo <= t / 255 <= hi) by (nonlinear_arith)
        requires
            lo * 255 <= t <= hi * 255,
    ;
    assert(src * 255 + dst * 0 == src * 255) by (nonlinear_arith);
    assert(src * 0 + dst * 255 == dst * 255) by (nonlinear_arith);
}

/// The mixed red, green and blue channels of a composite are bytes.
proof fn lemma_over_bytes(dst: u32, colour: u32)
    ensures
        0 <= mix(byte_of(colour, 2), byte_of(dst, 2), byte_of(colour, 3)) < 256,
        0 <= mix(byte_of(colour, 1), byte_of(dst, 1), byte_of(colour, 3)) < 256,
        0 <= mix(byte_of(colour, 0), byte_of(dst, 0), byte_of(colour, 3)) < 256,
{
    lemma_byte_extract(dst);
    lemma_byte_extract(colour);
    lemma_mix_bounds(byte_of(colour, 2), byte_of(dst, 2), byte_of(colour, 3));
    lemma_mix_bounds(byte_of(colour, 1), byte_of(dst, 1), byte_of(colour, 3));
    lemma_mix_bounds(byte_of(colour, 0), byte_of(dst, 0), byte_of(colour, 3));
}

/// One channel of `apply_argb`: the source channel `s` weighted by the alpha
/// `a`, plus the destination channel `d` weighted by its complement.
fn mix_channel(s: u32, d: u32, a: u32) -> (r: u32)
    requires
        s < 256,
        d < 256,
        a < 256,
    ensures
        r == mix(s as int, d as int, a as int),
{
    let inv = !(a as u8) as u32;
    assert(inv == 255 - a) by (bit_vector)
        requires
            inv == !(a as u8) as u32,
            a < 256,
    ;
    assert(s * a <= 255 * 255) by (nonlinear_arith)
        requires
            s < 256,
            a < 256,
    ;
    assert(d * inv <= 255 * 255) by (nonlinear_arith)
        requires
            d < 256,
            inv < 256,
    ;
    let v = (s * a + d * inv) / 255u32;
    proof {
        lemma_mix_bounds(s as int, d as int, a as int);
    }
    if v < 0xFF {
        v
    } else {
        0xFF
    }
}

/// Composites the ARGB colour `colour` over the ARGB pixel `point`.
///
/// Each of red, green and blue becomes the colour's channel weighted by the
/// colour's alpha plus the pixel's channel weighted by the rest of 255; the
/// alphas add up, saturating at 255.
pub fn apply_argb(point: &mut u32, colour: u32)
    ensures
        *final(point) == over(*old(point), colour),
{
    let dst = *point;
    proof {
        lemma_byte_extract(dst);
        lemma_byte_extract(colour);
        lemma_over_bytes(dst, colour);
    }
    let a = (colour >> 24) & 0xFF;
    let r = mix_channel((colour >> 16) & 0xFF, (dst >> 16) & 0xFF, a);
    let g = mix_channel((colour >> 8) & 0xFF, (dst >> 8) & 0xFF, a);
    let b = mix_channel(colour & 0xFF, dst & 0xFF, a);
    let da = (dst >> 24) & 0xFF;
    let sum = a + da;
    let alpha: u32 = if sum < 0xFF {
        sum
    } else {
        0xFF
    };
    proof {
        lemma_pack(alpha, r, g, b);
    }
    *point = (r << 16) | (g << 8) | b | (alpha << 24);
}

/// One byte of `blend_colours`: the weighted sum of the three bytes scaled
/// down by 255 and capped at 255.
fn blend_channel(x1: u32, x2: u32, x3: u32, b1: u32, b2: u32, b3: u32) -> (r: u32)
    requires
        x1 < 256,
        x2 < 256,
        x3 < 256,
        x1 * b1 + x2 * b2 + x3 * b3 <= u32::MAX,
    ensures
        r == min_int(255, (x1 * b1 + x2 * b2 + x3 * b3) / 255),
{
    assert(x1 * b1 <= x1 * b1 + x2 * b2 + x3 * b3) by (nonlinear_arith)
        requires
            0 <= x2 * b2,
            0 <= x3 * b3,
    ;
    assert(0 <= x2 * b2 && 0 <= x3 * b3) by (nonlinear_arith);
    let v = (x1 * b1 + x2 * b2 + x3 * b3) / 255;
    if v < 0xFF {
        v
    } else {
        0xFF
    }
}

/// Blends three colours byte by byte: each byte of the result is the sum of
/// that byte of each colour times its bias, divided by 255 and capped at 255.
pub fn blend_colours(
    colour1: &u32,
    colour2: &u32,
    colour3: &u32,
    bias1: &u32,
    bias2: &u32,
    bias3: &u32,
) -> (r: u32)
    requires
        blend_fits(*colour1, *colour2, *colour3, *bias1, *bias2, *bias3),
    ensures
        r == blend(*colour1, *colour2, *colour3, *bias1, *bias2, *bias3),
{
    let (c1, c2, c3) = (*colour1, *colour2, *colour3);
    let (b1, b2, b3) = (*bias1, *bias2, *bias3);
    proof {
        lemma_byte_extract(c1);
        lemma_byte_extract(c2);
        lemma_byte_extract(c3);
        assert(weighted_byte(c1, c2, c3, b1, b2, b3, 3) <= u32::MAX);
        assert(weighted_byte(c1, c2, c3, b1, b2, b3, 2) <= u32::MAX);
        assert(weighted_byte(c1, c2, c3, b1, b2, b3, 1) <= u32::MAX);
        assert(weighted_byte(c1, c2, c3, b1, b2, b3, 0) <= u32::MAX);
    }
    let a = blend_channel(c1 >> 24, c2 >> 24, c3 >> 24, b1, b2, b3);
    let r = blend_channel((c1 >> 16) & 0xff, (c2 >> 16) & 0xff, (c3 >> 16) & 0xff, b1, b2, b3);
    let g = blend_channel((c1 >> 8) & 0xff, (c2 >> 8) & 0xff, (c3 >> 8) & 0xff, b1, b2, b3);
    let b = blend_channel(c1 & 0xff, c2 & 0xff, c3 & 0xff, b1, b2, b3);
    proof {
        lemma_pack(a, r, g, b);
    }
    (a << 24) | (r << 16) | (g << 8) | b
}

/// Blending with all of the weight (255) on one colour gives that colour.
pub proof fn law_blend_full_weight(c1: u32, c2: u32, c3: u32)
    ensures
        blend(c1, c2, c3, 255, 0, 0) == c1,
        blend(c1, c2, c3, 0, 255, 0) == c2,
        blend(c1, c2, c3, 0, 0, 255) == c3,
{
    lemma_byte_extract(c1);
    lemma_byte_extract(c2);
    lemma_byte_extract(c3);
    lemma_from_bytes_of(c1);
    lemma_from_bytes_of(c2);
    lemma_from_bytes_of(c3);
    assert forall|k: int| 0 <= k < 4 implies #[trigger] blended_byte(c1, c2, c3, 255, 0, 0, k) == byte_of(c1, k)
        && blended_byte(c1, c2, c3, 0, 255, 0, k) == byte_of(c2, k) && blended_byte(c1, c2, c3, 0, 0, 255, k)
        == byte_of(c3, k) by {
        let (x, y, z) = (byte_of(c1, k), byte_of(c2, k), byte_of(c3, k));
        assert(0 <= x < 256 && 0 <= y < 256 && 0 <= z < 256);
        assert(x * 255 + y * 0 + z * 0 == x * 255) by (nonlinear_arith);
        assert(x * 0 + y * 255 + z * 0 == y * 255) by (nonlinear_arith);
        assert(x * 0 + y * 0 + z * 255 == z * 255) by (nonlinear_arith);
    }
}

/// Compositing an opaque colour replaces the pixel by the colour itself.
pub proof fn law_opaque_over(dst: u32, colour: u32)
    requires
        byte_of(colour, 3) == 255,
    ensures
        over(dst, colour) == colour,
{
    lemma_byte_extract(dst);
    lemma_byte_extract(colour);
    lemma_mix_bounds(byte_of(colour, 2), byte_of(dst, 2), 255);
    lemma_mix_bounds(byte_of(colour, 1), byte_of(dst, 1), 255);
    lemma_mix_bounds(byte_of(colour, 0), byte_of(dst, 0), 255);
    lemma_from_bytes_of(colour);
}

/// Compositing a fully transparent colour leaves the pixel as it was.
pub proof fn law_transparent_over(dst: u32, colour: u32)
    requires
        byte_of(colour, 3) == 0,
    ensures
        over(dst, colour) == dst,
{
    lemma_byte_extract(dst);
    lemma_byte_extract(colour);
    lemma_mix_bounds(byte_of(colour, 2), byte_of(dst, 2), 0);
    lemma_mix_bounds(byte_of(colour, 1), byte_of(dst, 1), 0);
    lemma_mix_bounds(byte_of(colour, 0), byte_of(dst, 0), 0);
    lemma_from_bytes_of(dst);
}

/// Every channel of a composite lies between that channel of the pixel and
/// of the colour, and the composite alpha is never below either alpha.
pub proof fn law_over_between(dst: u32, colour: u32)
    ensures
        forall|k: int|
            0 <= k < 3 ==> min_int(byte_of(dst, k), byte_of(colour, k)) <= #[trigger] byte_of(
                over(dst, colour),
                k,
            ) <= max_int(byte_of(dst, k), byte_of(colour, k)),
        byte_of(over(dst, colour), 3) >= max_int(byte_of(dst, 3), byte_of(colour, 3)),
{
    lemma_byte_extract(dst);
    lemma_byte_extract(colour);
    let a = byte_of(colour, 3);
    lemma_mix_bounds(byte_of(colour, 2), byte_of(dst, 2), a);
    lemma_mix_bounds(byte_of(colour, 1), byte_of(dst, 1), a);
    lemma_mix_bounds(byte_of(colour, 0), byte_of(dst, 0), a);
    lemma_bytes_of_from_bytes(
        min_int(255, a + byte_of(dst, 3)),
        mix(byte_of(colour, 2), byte_of(dst, 2), a),
        mix(byte_of(colour, 1), byte_of(dst, 1), a),
        mix(byte_of(colour, 0), byte_of(dst, 0), a),
    );
}

/// Each colour channel of a composite is the colour's channel weighted by
/// the colour's alpha plus the pixel's channel weighted by what the alpha
/// leaves of 255, the sum divided by 255 and rounded down; the alpha of a
/// composite is the sum of the two alphas, at most 255.
pub proof fn law_over_channels(dst: u32, colour: u32)
    ensures
        forall|k: int|
            0 <= k < 3 ==> #[trigger] byte_of(over(dst, colour), k) == (byte_of(colour, k) * byte_of(colour, 3)
                + byte_of(dst, k) * (255 - byte_of(colour, 3))) / 255,
        byte_of(over(dst, colour), 3) == if byte_of(colour, 3) + byte_of(dst, 3) < 255 {
            byte_of(colour, 3) + byte_of(dst, 3)
        } else {
            255
        },
{
    lemma_byte_extract(dst);
    lemma_byte_extract(colour);
    let a = byte_of(colour, 3);
    lemma_mix_bounds(byte_of(colour, 2), byte_of(dst, 2), a);
    lemma_mix_bounds(byte_of(colour, 1), byte_of(dst, 1), a);
    lemma_mix_bounds(byte_of(colour, 0), byte_of(dst, 0), a);
    lemma_bytes_of_from_bytes(
        min_int(255, a + byte_of(dst, 3)),
        mix(byte_of(colour, 2), byte_of(dst, 2), a),
        mix(byte_of(colour, 1), byte_of(dst, 1), a),
        mix(byte_of(colour, 0), byte_of(dst, 0), a),
    );
}

/// Each byte of a blend is the sum over the three colours of that byte
/// times the colour's bias, divided by 255 and rounded down, at most 255.
pub proof fn law_blend_bytes(c1: u32, c2: u32, c3: u32, b1: u32, b2: u32, b3: u32)
    ensures
        forall|k: int|
            0 <= k < 4 ==> {
                let sum = byte_of(c1, k) * b1 + byte_of(c2, k) * b2 + byte_of(c3, k) * b3;
                #[trigger] byte_of(blend(c1, c2, c3, b1, b2, b3), k) == if sum / 255 < 255 {
                    sum / 255
                } else {
                    255
                }
            },
{
    lemma_byte_extract(c1);
    lemma_byte_extract(c2);
    lemma_byte_extract(c3);
    assert forall|k: int| 0 <= k < 4 implies 0 <= #[trigger] blended_byte(c1, c2, c3, b1, b2, b3, k) < 256 by {
        let (x, y, z) = (byte_of(c1, k), byte_of(c2, k), byte_of(c3, k));
        assert(0 <= x * b1 && 0 <= y * b2 && 0 <= z * b3) by (nonlinear_arith)
            requires
                0 <= x && 0 <= y && 0 <= z,
        ;
    }
    lemma_bytes_of_from_bytes(
        blended_byte(c1, c2, c3, b1, b2, b3, 3),
        blended_byte(c1, c2, c3, b1, b2, b3, 2),
        blended_byte(c1, c2, c3, b1, b2, b3, 1),
        blended_byte(c1, c2, c3, b1, b2, b3, 0),
    );
}

} // verus!
