//! The compressed stream's word format, and raster-image helpers.
//!
//! One 2x2 pixel block becomes one 32-bit word with six fixed fields:
//! bits 31-23 hold `a` (9 bits, unsigned), bits 22-18 `b`, 17-13 `c`,
//! 12-8 `d` (5 bits each, signed), bits 7-4 `avg_pb` and 3-0 `avg_pr`
//! (4 bits each, unsigned).

use vstd::prelude::*;
use crate::bitfield::{getu, gets, newu, news, sfield, ufield, set_ufield, sbits, smin, smax};
use crate::bitfield::{lemma_unsigned_round_trip, lemma_signed_round_trip, lemma_field_preserved};
use crate::fixed::{rdiv, SCALE};

verus! {

/// An RGB pixel: integer channel values scaled by an image-wide
/// denominator.
#[derive(Clone, Copy, PartialEq, Eq, Structural, Debug)]
pub struct Rgb {
    pub red: u16,
    pub green: u16,
    pub blue: u16,
}

/// An RGB pixel normalized to the unit interval, in fixed point:
/// each channel is the integer channel value divided by the
/// denominator, scaled by [`SCALE`].
#[derive(Clone, Copy, PartialEq, Eq, Structural, Debug)]
pub struct RgbFixed {
    pub red: i64,
    pub green: i64,
    pub blue: i64,
}

/// The six field values of one compressed word: the quantized block
/// coefficients `a` (9-bit unsigned), `b`, `c`, `d` (5-bit signed), and
/// the two chroma indices (4-bit unsigned each).
#[derive(Clone, Copy, PartialEq, Eq, Structural, Debug)]
pub struct PackedValues {
    pub a: u64,
    pub b: i64,
    pub c: i64,
    pub d: i64,
    pub avg_pb: u64,
    pub avg_pr: u64,
}

/// What can go wrong while compressing or decompressing.
#[derive(Clone, Copy, PartialEq, Eq, Structural, Debug)]
pub enum CodecError {
    /// The input image or stream does not have the promised shape.
    InputFormat,
    /// A pixel count does not match the stated width and height.
    DimensionMismatch,
    /// A value does not fit its declared bit width while packing.
    FieldOverflow,
    /// A two-dimensional access lay outside the stated width and height.
    IndexOutOfBounds,
}

/// The six fields a 32-bit word holds, at the fixed layout.
pub open spec fn spec_unpack(w: u64) -> PackedValues {
    PackedValues {
        a: ufield(w, 9, 23),
        b: sfield(w, 5, 18) as i64,
        c: sfield(w, 5, 13) as i64,
        d: sfield(w, 5, 8) as i64,
        avg_pb: ufield(w, 4, 4),
        avg_pr: ufield(w, 4, 0),
    }
}

/// The field values every well-formed word satisfies.
pub open spec fn packed_in_range(p: PackedValues) -> bool {
    p.a < 512 && -16 <= p.b <= 15 && -16 <= p.c <= 15 && -16 <= p.d <= 15 && p.avg_pb < 16
        && p.avg_pr < 16
}

/// The powers of two behind the word layout, spelled out.
proof fn lemma_layout_constants()
    ensures
        1u64 << 9 == 512,
        1u64 << 5 == 32,
        1u64 << 4 == 16,
        1u64 << 3 == 8,
        smin(5) == -16,
        smax(5) == 15,
{
    assert(1u64 << 9 == 512 && 1u64 << 5 == 32 && 1u64 << 4 == 16 && 1u64 << 3 == 8) by (bit_vector);
}

/// Splits a 32-bit word into its six fields.
pub fn unpack_word(word: u32) -> (p: PackedValues)
    ensures
        p == spec_unpack(word as u64),
        packed_in_range(p),
{
    proof {
        lemma_layout_constants();
    }
    let w = word as u64;
    PackedValues {
        a: getu(w, 9, 23),
        b: gets(w, 5, 18),
        c: gets(w, 5, 13),
        d: gets(w, 5, 8),
        avg_pb: getu(w, 4, 4),
        avg_pr: getu(w, 4, 0),
    }
}

/// Packs six field values into one 32-bit word at the fixed layout;
/// fails with `FieldOverflow` exactly when some value does not fit its
/// declared bit width.
pub fn pack_word(p: &PackedValues) -> (r: Result<u32, CodecError>)
    ensures
        match r {
            Ok(w) => packed_in_range(*p) && spec_unpack(w as u64) == *p,
            Err(e) => e == CodecError::FieldOverflow && !packed_in_range(*p),
        },
{
    proof {
        lemma_layout_constants();
    }
    let w0 = 0u64;
    let w1 = match newu(w0, 9, 23, p.a) {
        Some(w) => w,
        None => {
            return Err(CodecError::FieldOverflow);
        },
    };
    let w2 = match news(w1, 5, 18, p.b) {
        Some(w) => w,
        None => {
            return Err(CodecError::FieldOverflow);
        },
    };
    let w3 = match news(w2, 5, 13, p.c) {
        Some(w) => w,
        None => {
            return Err(CodecError::FieldOverflow);
        },
    };
    let w4 = match news(w3, 5, 8, p.d) {
        Some(w) => w,
        None => {
            return Err(CodecError::FieldOverflow);
        },
    };
    let w5 = match newu(w4, 4, 4, p.avg_pb) {
        Some(w) => w,
        None => {
            return Err(CodecError::FieldOverflow);
        },
    };
    let w6 = match newu(w5, 4, 0, p.avg_pr) {
        Some(w) => w,
        None => {
            return Err(CodecError::FieldOverflow);
        },
    };
    proof {
        // Each field survives the later, disjoint packs and then reads
        // back as the value that was packed.
        lemma_field_preserved(w5, 4, 0, p.avg_pr, 9, 23);
        lemma_field_preserved(w4, 4, 4, p.avg_pb, 9, 23);
        lemma_field_preserved(w3, 5, 8, sbits(p.d, 5), 9, 23);
        lemma_field_preserved(w2, 5, 13, sbits(p.c, 5), 9, 23);
        lemma_field_preserved(w1, 5, 18, sbits(p.b, 5), 9, 23);
        lemma_unsigned_round_trip(w0, 9, 23, p.a);
        lemma_field_preserved(w5, 4, 0, p.avg_pr, 5, 18);
        lemma_field_preserved(w4, 4, 4, p.avg_pb, 5, 18);
        lemma_field_preserved(w3, 5, 8, sbits(p.d, 5), 5, 18);
        lemma_field_preserved(w2, 5, 13, sbits(p.c, 5), 5, 18);
        lemma_signed_round_trip(w1, 5, 18, p.b);
        lemma_field_preserved(w5, 4, 0, p.avg_pr, 5, 13);
        lemma_field_preserved(w4, 4, 4, p.avg_pb, 5, 13);
        lemma_field_preserved(w3, 5, 8, sbits(p.d, 5), 5, 13);
        lemma_signed_round_trip(w2, 5, 13, p.c);
        lemma_field_preserved(w5, 4, 0, p.avg_pr, 5, 8);
        lemma_field_preserved(w4, 4, 4, p.avg_pb, 5, 8);
        lemma_signed_round_trip(w3, 5, 8, p.d);
        lemma_field_preserved(w5, 4, 0, p.avg_pr, 4, 4);
        lemma_unsigned_round_trip(w4, 4, 4, p.avg_pb);
        lemma_unsigned_round_trip(w5, 4, 0, p.avg_pr);
        lemma_set_ufield_small(w0, 9, 23, p.a);
        lemma_set_ufield_small(w1, 5, 18, sbits(p.b, 5));
        lemma_set_ufield_small(w2, 5, 13, sbits(p.c, 5));
        lemma_set_ufield_small(w3, 5, 8, sbits(p.d, 5));
        lemma_set_ufield_small(w4, 4, 4, p.avg_pb);
        lemma_set_ufield_small(w5, 4, 0, p.avg_pr);
        assert((w6 as u32) as u64 == w6) by (bit_vector)
            requires
                w6 < 0x1_0000_0000u64,
        ;
    }
    Ok(w6 as u32)
}

/// Packing a field that lies entirely below bit 32 keeps a word below
/// `2^32`.
proof fn lemma_set_ufield_small(word: u64, width: u64, lsb: u64, value: u64)
    requires
        1 <= width <= 63,
        width + lsb <= 32,
        word < 0x1_0000_0000u64,
        value < (1u64 << width),
    ensures
        set_ufield(word, width, lsb, value) < 0x1_0000_0000u64,
{
    assert((word & !((((1u64 << width) - 1) as u64) << lsb)) | (value << lsb)
        < 0x1_0000_0000u64) by (bit_vector)
        requires
            1 <= width <= 63,
            width + lsb <= 32,
            word < 0x1_0000_0000u64,
            value < (1u64 << width),
    ;
}

/// Splits each 32-bit word of a stream into its six fields, in order.
pub fn load_words(raw_words: &Vec<u32>) -> (r: Vec<PackedValues>)
    ensures
        r@.len() == raw_words@.len(),
        forall|k: int|
            0 <= k < r@.len() ==> #[trigger] r@[k] == spec_unpack(raw_words@[k] as u64)
                && packed_in_range(r@[k]),
{
    let mut out: Vec<PackedValues> = Vec::new();
    let mut i: usize = 0;
    while i < raw_words.len()
        invariant
            i <= raw_words@.len(),
            out@.len() == i,
            forall|k: int|
                0 <= k < i ==> #[trigger] out@[k] == spec_unpack(raw_words@[k] as u64)
                    && packed_in_range(out@[k]),
        decreases raw_words@.len() - i,
    {
        out.push(unpack_word(raw_words[i]));
        i = i + 1;
    }
    out
}

/// Copies the top-left `new_width` by `new_height` region of a
/// `width`-pixel-wide image, dropping the trimmed columns and rows; the
/// retained region is untouched.
pub fn trim_img(pixels: &Vec<Rgb>, width: u32, new_width: u32, new_height: u32) -> (r: Vec<Rgb>)
    requires
        new_width <= width,
        (new_height as int) * (width as int) <= pixels@.len(),
        (new_width as int) * (new_height as int) <= usize::MAX,
    ensures
        r@.len() == (new_width as int) * (new_height as int),
        forall|k: int|
            0 <= k < r@.len() ==> #[trigger] r@[k] == pixels@[(k / (new_width as int)) * (
            width as int) + k % (new_width as int)],
{
    let nw = new_width as usize;
    let nh = new_height as usize;
    let w = width as usize;
    let mut out: Vec<Rgb> = Vec::new();
    let mut i: usize = 0;
    while i < nh
        invariant
            i <= nh,
            nw <= w,
            (nh as int) * (w as int) <= pixels@.len(),
            (nw as int) * (nh as int) <= usize::MAX,
            out@.len() == i * nw,
            out@.len() <= (nw as int) * (nh as int),
            forall|k: int|
                0 <= k < out@.len() ==> #[trigger] out@[k] == pixels@[(k / (nw as int)) * (
                w as int) + k % (nw as int)],
        decreases nh - i,
    {
        let mut j: usize = 0;
        while j < nw
            invariant
                i < nh,
                j <= nw,
                nw <= w,
                (nh as int) * (w as int) <= pixels@.len(),
                (nw as int) * (nh as int) <= usize::MAX,
                out@.len() == i * nw + j,
                out@.len() <= (nw as int) * (nh as int),
                forall|k: int|
                    0 <= k < out@.len() ==> #[trigger] out@[k] == pixels@[(k / (nw as int)) * (
                    w as int) + k % (nw as int)],
            decreases nw - j,
        {
            proof {
                crate::array2::lemma_row_major_in_bounds(w as int, nh as int, j as int, i as int);
                crate::array2::lemma_row_major_in_bounds(nw as int, nh as int, j as int, i as int);
                vstd::arithmetic::mul::lemma_mul_is_commutative(w as int, nh as int);
                vstd::arithmetic::mul::lemma_mul_is_commutative(nw as int, nh as int);
                vstd::arithmetic::div_mod::lemma_fundamental_div_mod_converse(
                    (i * nw + j) as int,
                    nw as int,
                    i as int,
                    j as int,
                );
            }
            let _len = pixels.len();
            out.push(pixels[i * w + j]);
            j = j + 1;
        }
        proof {
            crate::array2::lemma_row_major_step(nw as int, i as int);
        }
        i = i + 1;
    }
    proof {
        vstd::arithmetic::mul::lemma_mul_is_commutative(nw as int, nh as int);
    }
    out
}

/// The fixed-point normalization of one pixel: each channel divided by
/// the denominator, at scale [`SCALE`].
pub open spec fn spec_normalize(p: Rgb, denominator: u16) -> RgbFixed
    recommends
        denominator >= 1,
{
    RgbFixed {
        red: rdiv(p.red * (SCALE as int), denominator as int) as i64,
        green: rdiv(p.green * (SCALE as int), denominator as int) as i64,
        blue: rdiv(p.blue * (SCALE as int), denominator as int) as i64,
    }
}

/// Every channel of a normalized pixel lies in the unit interval.
pub open spec fn rgb_fixed_in_range(p: RgbFixed) -> bool {
    0 <= p.red <= SCALE && 0 <= p.green <= SCALE && 0 <= p.blue <= SCALE
}

/// Divides every channel of every pixel by the denominator, yielding
/// unit-interval fixed-point pixels.
pub fn divide_denom(pixels: &Vec<Rgb>, denominator: u16) -> (r: Vec<RgbFixed>)
    requires
        denominator >= 1,
        forall|k: int|
            0 <= k < pixels@.len() ==> (#[trigger] pixels@[k]).red <= denominator
                && pixels@[k].green <= denominator && pixels@[k].blue <= denominator,
    ensures
        r@.len() == pixels@.len(),
        forall|k: int|
            0 <= k < r@.len() ==> #[trigger] r@[k] == spec_normalize(pixels@[k], denominator)
                && rgb_fixed_in_range(r@[k]),
{
    let mut out: Vec<RgbFixed> = Vec::new();
    let mut i: usize = 0;
    while i < pixels.len()
        invariant
            i <= pixels@.len(),
            out@.len() == i,
            denominator >= 1,
            forall|k: int|
                0 <= k < pixels@.len() ==> (#[trigger] pixels@[k]).red <= denominator
                    && pixels@[k].green <= denominator && pixels@[k].blue <= denominator,
            forall|k: int|
                0 <= k < i ==> #[trigger] out@[k] == spec_normalize(pixels@[k], denominator)
                    && rgb_fixed_in_range(out@[k]),
        decreases pixels@.len() - i,
    {
        let p = pixels[i];
        proof {
            lemma_normalize_in_range(p, denominator);
        }
        let red = crate::fixed::rdiv_i64(p.red as i64 * SCALE, denominator as i64);
        let green = crate::fixed::rdiv_i64(p.green as i64 * SCALE, denominator as i64);
        let blue = crate::fixed::rdiv_i64(p.blue as i64 * SCALE, denominator as i64);
        out.push(RgbFixed { red, green, blue });
        i = i + 1;
    }
    out
}

/// A channel no greater than the denominator normalizes into the unit
/// interval.
pub proof fn lemma_normalize_in_range(p: Rgb, denominator: u16)
    requires
        denominator >= 1,
        p.red <= denominator,
        p.green <= denominator,
        p.blue <= denominator,
    ensures
        rgb_fixed_in_range(spec_normalize(p, denominator)),
{
    assert(p.red * (SCALE as int) <= (SCALE as int) * (denominator as int)) by (nonlinear_arith)
        requires
            p.red <= denominator,
    ;
    assert(p.green * (SCALE as int) <= (SCALE as int) * (denominator as int)) by (nonlinear_arith)
        requires
            p.green <= denominator,
    ;
    assert(p.blue * (SCALE as int) <= (SCALE as int) * (denominator as int)) by (nonlinear_arith)
        requires
            p.blue <= denominator,
    ;
    crate::fixed::lemma_rdiv_range(p.red * (SCALE as int), denominator as int, SCALE as int);
    crate::fixed::lemma_rdiv_range(p.green * (SCALE as int), denominator as int, SCALE as int);
    crate::fixed::lemma_rdiv_range(p.blue * (SCALE as int), denominator as int, SCALE as int);
}

} // verus!
