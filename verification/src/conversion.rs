//! Color-space conversion and the 2x2 block transform, in fixed point.
//!
//! The forward path turns unit-interval RGB pixels into luma/chroma
//! samples, averages each 2x2 block into four quantized coefficients and
//! a shared chroma pair, and the inverse path reverses it. All values
//! are integers scaled by [`SCALE`]; every rounding step is
//! round-half-away-from-zero.

use vstd::prelude::*;
use crate::fixed::{rdiv, clamp, rdiv_i64, clamp_i64, lemma_rdiv_range, lemma_rdiv_exact, SCALE};
use crate::format::{RgbFixed, Rgb, PackedValues, rgb_fixed_in_range, packed_in_range};
use crate::chroma::{
    chroma_rep,
    spec_index_of_chroma,
    chroma_of_index_fx,
    index_of_chroma_fx,
    lemma_chroma_rep_range,
};

verus! {

/// A luma/chroma sample: `y` in the unit interval, `pb` and `pr` in
/// `[-1/2, 1/2]`, all at scale [`SCALE`].
#[derive(Clone, Copy, PartialEq, Eq, Structural, Debug)]
pub struct Ypbpr {
    pub y: i64,
    pub pb: i64,
    pub pr: i64,
}

/// One decoded sample: its reconstructed luma and the block's shared
/// dequantized chroma pair, at scale [`SCALE`].
#[derive(Clone, Copy, PartialEq, Eq, Structural, Debug)]
pub struct DCTValues {
    pub yval: i64,
    pub avg_pb: i64,
    pub avg_pr: i64,
}

/// One forward-transformed block: quantized coefficients `a` (9-bit
/// range), `b`, `c`, `d` (each in `[-15, 15]`), and the block's two
/// chroma averages quantized to table indices.
#[derive(Clone, Copy, PartialEq, Eq, Structural, Debug)]
pub struct CodedBlock {
    pub a: u64,
    pub b: i64,
    pub c: i64,
    pub d: i64,
    pub avg_pb: u64,
    pub avg_pr: u64,
}

/// Luma of a unit-interval RGB pixel:
/// `y = 0.299 R + 0.587 G + 0.114 B`.
pub open spec fn spec_y(p: RgbFixed) -> int {
    rdiv(299 * p.red + 587 * p.green + 114 * p.blue, 1000)
}

/// Blue-difference chroma of a unit-interval RGB pixel:
/// `pb = -0.168736 R - 0.331264 G + 0.5 B`.
pub open spec fn spec_pb(p: RgbFixed) -> int {
    rdiv(-168736 * p.red - 331264 * p.green + 500000 * p.blue, 1000000)
}

/// Red-difference chroma of a unit-interval RGB pixel:
/// `pr = 0.5 R - 0.418688 G - 0.081312 B`.
pub open spec fn spec_pr(p: RgbFixed) -> int {
    rdiv(500000 * p.red - 418688 * p.green - 81312 * p.blue, 1000000)
}

/// The full color-space conversion of one pixel.
pub open spec fn spec_ypbpr(p: RgbFixed) -> Ypbpr {
    Ypbpr { y: spec_y(p) as i64, pb: spec_pb(p) as i64, pr: spec_pr(p) as i64 }
}

/// Luma in the unit interval, chroma in `[-1/2, 1/2]`.
pub open spec fn ypbpr_in_range(s: Ypbpr) -> bool {
    0 <= s.y <= SCALE && -500000 <= s.pb <= 500000 && -500000 <= s.pr <= 500000
}

/// A unit-interval pixel converts to an in-range luma/chroma sample.
proof fn lemma_ypbpr_in_range(p: RgbFixed)
    requires
        rgb_fixed_in_range(p),
    ensures
        ypbpr_in_range(spec_ypbpr(p)),
{
    lemma_rdiv_range(299 * p.red + 587 * p.green + 114 * p.blue, 1000, SCALE as int);
    lemma_rdiv_range(-168736 * p.red - 331264 * p.green + 500000 * p.blue, 1000000, 500000);
    lemma_rdiv_range(500000 * p.red - 418688 * p.green - 81312 * p.blue, 1000000, 500000);
}

/// Converts every unit-interval RGB pixel to a luma/chroma sample.
pub fn rgbto_ypbpr(samples: &Vec<RgbFixed>) -> (r: Vec<Ypbpr>)
    requires
        forall|k: int| 0 <= k < samples@.len() ==> rgb_fixed_in_range(#[trigger] samples@[k]),
    ensures
        r@.len() == samples@.len(),
        forall|k: int|
            0 <= k < r@.len() ==> #[trigger] r@[k] == spec_ypbpr(samples@[k]) && ypbpr_in_range(
                r@[k],
            ),
{
    let mut out: Vec<Ypbpr> = Vec::new();
    let mut i: usize = 0;
    while i < samples.len()
        invariant
            i <= samples@.len(),
            out@.len() == i,
            forall|k: int| 0 <= k < samples@.len() ==> rgb_fixed_in_range(#[trigger] samples@[k]),
            forall|k: int|
                0 <= k < i ==> #[trigger] out@[k] == spec_ypbpr(samples@[k]) && ypbpr_in_range(
                    out@[k],
                ),
        decreases samples@.len() - i,
    {
        let p = samples[i];
        proof {
            lemma_ypbpr_in_range(p);
        }
        let y = rdiv_i64(299 * p.red + 587 * p.green + 114 * p.blue, 1000);
        let pb = rdiv_i64(-168736 * p.red - 331264 * p.green + 500000 * p.blue, 1000000);
        let pr = rdiv_i64(500000 * p.red - 418688 * p.green - 81312 * p.blue, 1000000);
        out.push(Ypbpr { y, pb, pr });
        i = i + 1;
    }
    out
}

/// Average luma of a block: `(tl + tr + bl + br) / 4`.
pub open spec fn block_a(tl: int, tr: int, bl: int, br: int) -> int {
    rdiv(br + bl + tr + tl, 4)
}

/// Vertical luma detail of a block: `(br + bl - tr - tl) / 4`.
pub open spec fn block_b(tl: int, tr: int, bl: int, br: int) -> int {
    rdiv(br + bl - tr - tl, 4)
}

/// Horizontal luma detail of a block: `(br - bl + tr - tl) / 4`.
pub open spec fn block_c(tl: int, tr: int, bl: int, br: int) -> int {
    rdiv(br - bl + tr - tl, 4)
}

/// Diagonal luma detail of a block: `(br - bl - tr + tl) / 4`.
pub open spec fn block_d(tl: int, tr: int, bl: int, br: int) -> int {
    rdiv(br - bl - tr + tl, 4)
}

/// The rounded average of four chroma values.
pub open spec fn avg4(x1: int, x2: int, x3: int, x4: int) -> int {
    rdiv(x1 + x2 + x3 + x4, 4)
}

/// Average luma quantized to the 9-bit range: `a * 511`, rounded.
pub open spec fn quant_a(a: int) -> int {
    rdiv(a * 511, SCALE as int)
}

/// A detail coefficient clamped to `[-0.3, 0.3]` and quantized to
/// `[-15, 15]`: `clamp(x) * 50`, rounded.
pub open spec fn quant_bcd(x: int) -> int {
    rdiv(clamp(x, -300000, 300000) * 50, SCALE as int)
}

/// A quantized average luma back in the unit interval: `q / 511`,
/// rounded and clamped.
pub open spec fn dequant_a(q: int) -> int {
    clamp(rdiv(q * (SCALE as int), 511), 0, SCALE as int)
}

/// A quantized detail coefficient back in `[-0.3, 0.3]`: `q / 50`,
/// rounded and clamped.
pub open spec fn dequant_bcd(q: int) -> int {
    clamp(rdiv(q * (SCALE as int), 50), -300000, 300000)
}

/// The forward transform of one block of four samples.
pub open spec fn spec_dct(tl: Ypbpr, tr: Ypbpr, bl: Ypbpr, br: Ypbpr) -> CodedBlock {
    CodedBlock {
        a: quant_a(block_a(tl.y as int, tr.y as int, bl.y as int, br.y as int)) as u64,
        b: quant_bcd(block_b(tl.y as int, tr.y as int, bl.y as int, br.y as int)) as i64,
        c: quant_bcd(block_c(tl.y as int, tr.y as int, bl.y as int, br.y as int)) as i64,
        d: quant_bcd(block_d(tl.y as int, tr.y as int, bl.y as int, br.y as int)) as i64,
        avg_pb: spec_index_of_chroma(
            avg4(tl.pb as int, tr.pb as int, bl.pb as int, br.pb as int),
        ) as u64,
        avg_pr: spec_index_of_chroma(
            avg4(tl.pr as int, tr.pr as int, bl.pr as int, br.pr as int),
        ) as u64,
    }
}

/// The ranges a forward-transformed block always satisfies.
pub open spec fn coded_in_range(cb: CodedBlock) -> bool {
    cb.a < 512 && -15 <= cb.b <= 15 && -15 <= cb.c <= 15 && -15 <= cb.d <= 15 && cb.avg_pb < 16
        && cb.avg_pr < 16
}

/// Forward-transforms the 2x2 block whose top-left sample sits at
/// `(col, row)`: averages and quantizes the four lumas into `a`, `b`,
/// `c`, `d` and averages the chroma over the block.
#[verifier::rlimit(100)]
pub fn dct(
    pb_vector: &Vec<Ypbpr>,
    new_width: u32,
    new_height: u32,
    row: u32,
    col: u32,
) -> (r: CodedBlock)
    requires
        pb_vector@.len() == (new_width as int) * (new_height as int),
        row + 1 < new_height,
        col + 1 < new_width,
        forall|k: int| 0 <= k < pb_vector@.len() ==> ypbpr_in_range(#[trigger] pb_vector@[k]),
    ensures
        r == spec_dct(
            pb_vector@[(row as int) * (new_width as int) + (col as int)],
            pb_vector@[(row as int) * (new_width as int) + (col as int) + 1],
            pb_vector@[(row as int + 1) * (new_width as int) + (col as int)],
            pb_vector@[(row as int + 1) * (new_width as int) + (col as int) + 1],
        ),
        coded_in_range(r),
{
    let w = new_width as usize;
    let _len = pb_vector.len();
    proof {
        crate::array2::lemma_row_major_in_bounds(
            new_width as int,
            new_height as int,
            col as int + 1,
            row as int + 1,
        );
        crate::array2::lemma_row_major_step(new_width as int, row as int);
    }
    let base = (row as usize) * w + (col as usize);
    let top_left = pb_vector[base];
    let top_right = pb_vector[base + 1];
    let bot_left = pb_vector[base + w];
    let bot_right = pb_vector[base + w + 1];

    let a_pre = rdiv_i64(bot_right.y + bot_left.y + top_right.y + top_left.y, 4);
    let b_pre = rdiv_i64(bot_right.y + bot_left.y - top_right.y - top_left.y, 4);
    let c_pre = rdiv_i64(bot_right.y - bot_left.y + top_right.y - top_left.y, 4);
    let d_pre = rdiv_i64(bot_right.y - bot_left.y - top_right.y + top_left.y, 4);

    proof {
        lemma_rdiv_range(
            (bot_right.y + bot_left.y + top_right.y + top_left.y) as int,
            4,
            SCALE as int,
        );
        lemma_quant_ranges(a_pre as int, b_pre as int, c_pre as int, d_pre as int);
    }
    let a_q = rdiv_i64(a_pre * 511, SCALE);
    let b_q = rdiv_i64(clamp_i64(b_pre, -300000, 300000) * 50, SCALE);
    let c_q = rdiv_i64(clamp_i64(c_pre, -300000, 300000) * 50, SCALE);
    let d_q = rdiv_i64(clamp_i64(d_pre, -300000, 300000) * 50, SCALE);

    let avg_pb = rdiv_i64(top_left.pb + top_right.pb + bot_left.pb + bot_right.pb, 4);
    let avg_pr = rdiv_i64(top_left.pr + top_right.pr + bot_left.pr + bot_right.pr, 4);
    proof {
        lemma_rdiv_range((top_left.pb + top_right.pb + bot_left.pb + bot_right.pb) as int, 4, 500000);
        lemma_rdiv_range((top_left.pr + top_right.pr + bot_left.pr + bot_right.pr) as int, 4, 500000);
    }
    let pb_index = index_of_chroma_fx(avg_pb);
    let pr_index = index_of_chroma_fx(avg_pr);
    CodedBlock { a: a_q as u64, b: b_q, c: c_q, d: d_q, avg_pb: pb_index, avg_pr: pr_index }
}

/// Quantizing an in-range average luma lands in `[0, 511]` and a
/// clamped detail coefficient in `[-15, 15]`.
proof fn lemma_quant_ranges(a: int, b: int, c: int, d: int)
    requires
        0 <= a <= SCALE,
    ensures
        0 <= quant_a(a) < 512,
        -15 <= quant_bcd(b) <= 15,
        -15 <= quant_bcd(c) <= 15,
        -15 <= quant_bcd(d) <= 15,
{
    assert(a * 511 <= 511 * (SCALE as int)) by (nonlinear_arith)
        requires
            0 <= a <= SCALE,
    ;
    assert(a * 511 >= 0) by (nonlinear_arith)
        requires
            a >= 0,
    ;
    lemma_rdiv_range(a * 511, SCALE as int, 511);
    lemma_rdiv_range(clamp(b, -300000, 300000) * 50, SCALE as int, 15);
    lemma_rdiv_range(clamp(c, -300000, 300000) * 50, SCALE as int, 15);
    lemma_rdiv_range(clamp(d, -300000, 300000) * 50, SCALE as int, 15);
}

/// Which of the four reconstructed lumas a sample gets, by its position
/// `(di, dj)` inside the block: the inverse transform of `(a, b, c, d)`.
pub open spec fn spec_y_at(p: PackedValues, di: int, dj: int) -> int {
    let a = dequant_a(p.a as int);
    let b = dequant_bcd(p.b as int);
    let c = dequant_bcd(p.c as int);
    let d = dequant_bcd(p.d as int);
    if di == 0 && dj == 0 {
        a - b - c + d
    } else if di == 0 {
        a - b + c - d
    } else if dj == 0 {
        a + b - c - d
    } else {
        a + b + c + d
    }
}

/// The decoded sample of one pixel: its reconstructed luma and the
/// block's shared chroma pair.
pub open spec fn spec_dct_values(p: PackedValues, pb: i64, pr: i64, di: int, dj: int) -> DCTValues {
    DCTValues { yval: spec_y_at(p, di, dj) as i64, avg_pb: pb, avg_pr: pr }
}

/// The block index of the pixel at flat offset `k` in a `w`-wide image,
/// in row-major block order.
pub open spec fn spec_block_of(k: int, w: int) -> int {
    ((k / w) / 2) * (w / 2) + (k % w) / 2
}

/// The reconstruction-side ranges every decoded sample satisfies.
pub open spec fn dct_values_in_range(v: DCTValues) -> bool {
    -900000 <= v.yval <= SCALE + 900000 && -500000 <= v.avg_pb <= 500000 && -500000 <= v.avg_pr
        <= 500000
}

/// Rebuilds the per-pixel decoded samples of a `width` by `height`
/// image from its packed blocks: each pixel gets the inverse-transformed
/// luma for its position inside its 2x2 block and the block's shared
/// dequantized chroma pair.
pub fn dct_function(unpack_word_list: &Vec<PackedValues>, width: u32, height: u32) -> (r: Vec<
    DCTValues,
>)
    requires
        width % 2 == 0,
        height % 2 == 0,
        unpack_word_list@.len() == ((width as int) / 2) * ((height as int) / 2),
        (width as int) * (height as int) <= usize::MAX,
        forall|k: int|
            0 <= k < unpack_word_list@.len() ==> packed_in_range(#[trigger] unpack_word_list@[k]),
    ensures
        r@.len() == (width as int) * (height as int),
        forall|k: int|
            0 <= k < r@.len() ==> #[trigger] r@[k] == spec_dct_values(
                unpack_word_list@[spec_block_of(k, width as int)],
                chroma_rep(unpack_word_list@[spec_block_of(k, width as int)].avg_pb as int) as i64,
                chroma_rep(unpack_word_list@[spec_block_of(k, width as int)].avg_pr as int) as i64,
                (k / (width as int)) % 2,
                (k % (width as int)) % 2,
            ) && dct_values_in_range(r@[k]),
{
    let w = width as usize;
    let h = height as usize;
    let w2 = w / 2;
    let h2 = h / 2;
    let mut out: Vec<DCTValues> = Vec::new();
    let mut i: usize = 0;
    while i < h
        invariant
            i <= h,
            w == width,
            h == height,
            w2 == w / 2,
            h2 == h / 2,
            width % 2 == 0,
            height % 2 == 0,
            unpack_word_list@.len() == (w2 as int) * (h2 as int),
            (w as int) * (h as int) <= usize::MAX,
            forall|k: int|
                0 <= k < unpack_word_list@.len() ==> packed_in_range(
                    #[trigger] unpack_word_list@[k],
                ),
            out@.len() == i * w,
            forall|k: int|
                0 <= k < out@.len() ==> #[trigger] out@[k] == spec_dct_values(
                    unpack_word_list@[spec_block_of(k, w as int)],
                    chroma_rep(unpack_word_list@[spec_block_of(k, w as int)].avg_pb as int) as i64,
                    chroma_rep(unpack_word_list@[spec_block_of(k, w as int)].avg_pr as int) as i64,
                    (k / (w as int)) % 2,
                    (k % (w as int)) % 2,
                ) && dct_values_in_range(out@[k]),
        decreases h - i,
    {
        let mut j: usize = 0;
        while j < w
            invariant
                i < h,
                j <= w,
                w == width,
                h == height,
                w2 == w / 2,
                h2 == h / 2,
                width % 2 == 0,
                height % 2 == 0,
                unpack_word_list@.len() == (w2 as int) * (h2 as int),
                (w as int) * (h as int) <= usize::MAX,
                forall|k: int|
                    0 <= k < unpack_word_list@.len() ==> packed_in_range(
                        #[trigger] unpack_word_list@[k],
                    ),
                out@.len() == i * w + j,
                forall|k: int|
                    0 <= k < out@.len() ==> #[trigger] out@[k] == spec_dct_values(
                        unpack_word_list@[spec_block_of(k, w as int)],
                        chroma_rep(
                            unpack_word_list@[spec_block_of(k, w as int)].avg_pb as int,
                        ) as i64,
                        chroma_rep(
                            unpack_word_list@[spec_block_of(k, w as int)].avg_pr as int,
                        ) as i64,
                        (k / (w as int)) % 2,
                        (k % (w as int)) % 2,
                    ) && dct_values_in_range(out@[k]),
            decreases w - j,
        {
            proof {
                lemma_half_lt(i as int, h as int);
                lemma_half_lt(j as int, w as int);
                crate::array2::lemma_row_major_in_bounds(
                    w2 as int,
                    h2 as int,
                    (j / 2) as int,
                    (i / 2) as int,
                );
                crate::array2::lemma_row_major_in_bounds(w as int, h as int, j as int, i as int);
                vstd::arithmetic::div_mod::lemma_fundamental_div_mod_converse(
                    (i * w + j) as int,
                    w as int,
                    i as int,
                    j as int,
                );
                vstd::arithmetic::div_mod::lemma_fundamental_div_mod_converse(
                    i as int,
                    2,
                    (i / 2) as int,
                    (i % 2) as int,
                );
                vstd::arithmetic::div_mod::lemma_fundamental_div_mod_converse(
                    j as int,
                    2,
                    (j / 2) as int,
                    (j % 2) as int,
                );
            }
            let _n_blocks = unpack_word_list.len();
            let n = (i / 2) * w2 + (j / 2);
            let p = unpack_word_list[n];
            let a = clamp_i64(rdiv_i64((p.a as i64) * SCALE, 511), 0, SCALE);
            let b = clamp_i64(rdiv_i64(p.b * SCALE, 50), -300000, 300000);
            let c = clamp_i64(rdiv_i64(p.c * SCALE, 50), -300000, 300000);
            let d = clamp_i64(rdiv_i64(p.d * SCALE, 50), -300000, 300000);
            let yval = if i % 2 == 0 && j % 2 == 0 {
                a - b - c + d
            } else if i % 2 == 0 {
                a - b + c - d
            } else if j % 2 == 0 {
                a + b - c - d
            } else {
                a + b + c + d
            };
            proof {
                lemma_chroma_rep_range(p.avg_pb as int);
                lemma_chroma_rep_range(p.avg_pr as int);
            }
            let avg_pb = chroma_of_index_fx(p.avg_pb);
            let avg_pr = chroma_of_index_fx(p.avg_pr);
            out.push(DCTValues { yval, avg_pb, avg_pr });
            j = j + 1;
        }
        proof {
            crate::array2::lemma_row_major_step(w as int, i as int);
        }
        i = i + 1;
    }
    proof {
        vstd::arithmetic::mul::lemma_mul_is_commutative(w as int, h as int);
    }
    out
}

/// Halving keeps a strict bound: an index below an even bound halves to
/// below the halved bound.
proof fn lemma_half_lt(i: int, h: int)
    by (nonlinear_arith)
    requires
        0 <= i < h,
        h % 2 == 0,
    ensures
        0 <= i / 2 < h / 2,
        0 <= i % 2 <= 1,
{
}

/// A block of four identical lumas forward-transforms to zero detail
/// coefficients, and its average luma is the shared luma itself.
pub proof fn lemma_uniform_block_forward(y: int)
    ensures
        block_a(y, y, y, y) == y,
        quant_bcd(block_b(y, y, y, y)) == 0,
        quant_bcd(block_c(y, y, y, y)) == 0,
        quant_bcd(block_d(y, y, y, y)) == 0,
{
    lemma_rdiv_exact(y, 4);
    assert(y + y + y + y == y * 4);
    vstd::arithmetic::div_mod::lemma_basic_div(2, 4);
    assert(block_b(y, y, y, y) == 0);
    assert(block_c(y, y, y, y) == 0);
    assert(block_d(y, y, y, y) == 0);
    vstd::arithmetic::div_mod::lemma_basic_div(SCALE as int / 2, SCALE as int);
    assert(quant_bcd(0) == 0);
}

/// Inverse-transforming a block whose detail coefficients are zero
/// yields the same luma at all four positions: the dequantized average.
pub proof fn lemma_flat_block_inverse(p: PackedValues, di: int, dj: int)
    requires
        p.b == 0,
        p.c == 0,
        p.d == 0,
    ensures
        spec_y_at(p, di, dj) == dequant_a(p.a as int),
{
    vstd::arithmetic::div_mod::lemma_basic_div(25, 50);
    assert(dequant_bcd(0) == 0);
}

/// Quantizing and dequantizing an average luma in the unit interval
/// moves it by at most a thousandth of full scale.
pub proof fn lemma_luma_quant_error(a: int)
    requires
        0 <= a <= SCALE,
    ensures
        -1000 <= dequant_a(quant_a(a)) - a <= 1000,
{
    let s = SCALE as int;
    let q = quant_a(a);
    lemma_rdiv_range(a * 511, s, 511);
    crate::fixed::lemma_rdiv_error(a * 511, s);
    let y0 = rdiv(q * s, 511);
    lemma_rdiv_range(q * s, 511, s);
    crate::fixed::lemma_rdiv_error(q * s, 511);
}

/// Quantizing and dequantizing a detail coefficient lands within a
/// hundredth of full scale of its clamped value.
pub proof fn lemma_detail_quant_error(x: int)
    ensures
        -10001 <= dequant_bcd(quant_bcd(x)) - clamp(x, -300000, 300000) <= 10001,
{
    let s = SCALE as int;
    let xc = clamp(x, -300000, 300000);
    let q = quant_bcd(x);
    lemma_rdiv_range(xc * 50, s, 15);
    crate::fixed::lemma_rdiv_error(xc * 50, s);
    let y0 = rdiv(q * s, 50);
    lemma_rdiv_range(q * s, 50, 300000);
    crate::fixed::lemma_rdiv_error(q * s, 50);
}

/// A uniform block round-trips with bounded luma error: forward
/// transforming four equal lumas and inverse transforming the quantized
/// coefficients reconstructs, at every position, a luma within a
/// thousandth of full scale of the shared one.
pub proof fn lemma_uniform_block_round_trip(y: int, di: int, dj: int)
    requires
        0 <= y <= SCALE,
    ensures
        ({
            let p = PackedValues {
                a: quant_a(y) as u64,
                b: quant_bcd(block_b(y, y, y, y)) as i64,
                c: quant_bcd(block_c(y, y, y, y)) as i64,
                d: quant_bcd(block_d(y, y, y, y)) as i64,
                avg_pb: 0,
                avg_pr: 0,
            };
            quant_a(block_a(y, y, y, y)) == quant_a(y) && -1000 <= spec_y_at(p, di, dj) - y <= 1000
        }),
{
    lemma_uniform_block_forward(y);
    lemma_rdiv_range(y * 511, SCALE as int, 511);
    let p = PackedValues {
        a: quant_a(y) as u64,
        b: quant_bcd(block_b(y, y, y, y)) as i64,
        c: quant_bcd(block_c(y, y, y, y)) as i64,
        d: quant_bcd(block_d(y, y, y, y)) as i64,
        avg_pb: 0,
        avg_pr: 0,
    };
    lemma_flat_block_inverse(p, di, dj);
    lemma_luma_quant_error(y);
}

/// A uniform block's chroma round-trips with bounded error: the four
/// equal chroma values average to themselves exactly, and the
/// representative of the nearest table index lies within `0.15` of full
/// scale of them.
pub proof fn lemma_uniform_chroma_round_trip(pb: int)
    requires
        -500000 <= pb <= 500000,
    ensures
        avg4(pb, pb, pb, pb) == pb,
        crate::chroma::iabs(chroma_rep(spec_index_of_chroma(pb)) - pb) <= 150000,
{
    lemma_rdiv_exact(pb, 4);
    assert(pb + pb + pb + pb == pb * 4);
    crate::chroma::lemma_chroma_quant_error(pb);
}

/// The red channel before scaling: `y + 1.402 pr`.
pub open spec fn spec_red_fx(v: DCTValues) -> int {
    v.yval + rdiv(1402000 * v.avg_pr, 1000000)
}

/// The green channel before scaling: `y - 0.344136 pb - 0.714136 pr`.
pub open spec fn spec_green_fx(v: DCTValues) -> int {
    v.yval - rdiv(344136 * v.avg_pb + 714136 * v.avg_pr, 1000000)
}

/// The blue channel before scaling: `y + 1.772 pb`.
pub open spec fn spec_blue_fx(v: DCTValues) -> int {
    v.yval + rdiv(1772000 * v.avg_pb, 1000000)
}

/// A fixed-point channel clamped to the unit interval, scaled by the
/// denominator and rounded to an integer pixel value.
pub open spec fn spec_channel(fx: int, denominator: u16) -> int {
    rdiv(clamp(fx, 0, SCALE as int) * denominator, SCALE as int)
}

/// The reconstructed pixel of one decoded sample.
pub open spec fn spec_rgb_of(v: DCTValues, denominator: u16) -> Rgb {
    Rgb {
        red: spec_channel(spec_red_fx(v), denominator) as u16,
        green: spec_channel(spec_green_fx(v), denominator) as u16,
        blue: spec_channel(spec_blue_fx(v), denominator) as u16,
    }
}

/// A clamped channel scales to at most the denominator.
proof fn lemma_channel_range(fx: int, denominator: u16)
    requires
        denominator >= 1,
    ensures
        0 <= spec_channel(fx, denominator) <= denominator,
{
    assert(0 <= clamp(fx, 0, SCALE as int) * (denominator as int) <= (denominator as int) * (
    SCALE as int)) by (nonlinear_arith)
        requires
            0 <= clamp(fx, 0, SCALE as int) <= SCALE,
    ;
    lemma_rdiv_range(
        clamp(fx, 0, SCALE as int) * (denominator as int),
        SCALE as int,
        denominator as int,
    );
}

/// The fixed-point inverse color matrix undoes the forward one to
/// within three units of the scale: converting a unit-interval pixel to
/// luma/chroma and straight back moves each channel by at most
/// `3 / SCALE`.
pub proof fn lemma_inverse_matrix_error(p: RgbFixed)
    requires
        rgb_fixed_in_range(p),
    ensures
        ({
            let v = DCTValues {
                yval: spec_y(p) as i64,
                avg_pb: spec_pb(p) as i64,
                avg_pr: spec_pr(p) as i64,
            };
            crate::chroma::iabs(spec_red_fx(v) - p.red) <= 3 && crate::chroma::iabs(
                spec_green_fx(v) - p.green,
            ) <= 3 && crate::chroma::iabs(spec_blue_fx(v) - p.blue) <= 3
        }),
{
    lemma_ypbpr_in_range(p);
    let y = spec_y(p);
    let pb = spec_pb(p);
    let pr = spec_pr(p);
    crate::fixed::lemma_rdiv_error(299 * p.red + 587 * p.green + 114 * p.blue, 1000);
    crate::fixed::lemma_rdiv_error(-168736 * p.red - 331264 * p.green + 500000 * p.blue, 1000000);
    crate::fixed::lemma_rdiv_error(500000 * p.red - 418688 * p.green - 81312 * p.blue, 1000000);
    crate::fixed::lemma_rdiv_error(1402000 * pr, 1000000);
    crate::fixed::lemma_rdiv_error(344136 * pb + 714136 * pr, 1000000);
    crate::fixed::lemma_rdiv_error(1772000 * pb, 1000000);
}

/// Scaling a perturbed channel back to pixel range keeps the
/// perturbation: when the fixed-point channel `fx1` sits within `e` of
/// the exact normalization `fx0` of the original value, the clamped,
/// scaled and rounded result sits within `(e + 1) / SCALE` of it.
proof fn lemma_channel_leg(fx1: int, fx0: int, orig: int, denominator: u16, e: int)
    requires
        denominator >= 1,
        0 <= orig <= denominator,
        0 <= fx0 <= SCALE,
        fx0 == rdiv(orig * (SCALE as int), denominator as int),
        crate::chroma::iabs(fx1 - fx0) <= e,
        e >= 0,
    ensures
        1000000 * crate::chroma::iabs(spec_channel(fx1, denominator) - orig) <= e * (
        denominator as int) + denominator + 500000,
{
    let s = SCALE as int;
    let d = denominator as int;
    let c = clamp(fx1, 0, s);
    crate::fixed::lemma_rdiv_error(c * d, s);
    crate::fixed::lemma_rdiv_error(orig * s, d);
    assert(crate::chroma::iabs(c - fx0) <= e);
    assert((c - fx0) * d == c * d - fx0 * d && -(e * d) <= (c - fx0) * d <= e * d && d - d / 2
        <= d) by (nonlinear_arith)
        requires
            crate::chroma::iabs(c - fx0) <= e,
            e >= 0,
            d >= 1,
    ;
}

/// A uniform image's decoded sample is close to its exact luma/chroma
/// sample: sending a pixel through normalization, color conversion, the
/// forward transform of its all-equal block, quantization and the
/// inverse transform moves the luma by at most `0.001` and each chroma
/// by at most `0.15` of full scale, at every block position.
#[verifier::rlimit(100)]
pub proof fn lemma_uniform_block_decode(px: Rgb, denominator: u16, di: int, dj: int)
    requires
        denominator >= 1,
        px.red <= denominator,
        px.green <= denominator,
        px.blue <= denominator,
    ensures
        ({
            let sm = spec_ypbpr(crate::format::spec_normalize(px, denominator));
            let cb = spec_dct(sm, sm, sm, sm);
            let p = PackedValues {
                a: cb.a,
                b: cb.b,
                c: cb.c,
                d: cb.d,
                avg_pb: cb.avg_pb,
                avg_pr: cb.avg_pr,
            };
            let v = spec_dct_values(
                p,
                chroma_rep(p.avg_pb as int) as i64,
                chroma_rep(p.avg_pr as int) as i64,
                di,
                dj,
            );
            crate::chroma::iabs(v.yval - sm.y) <= 1000 && crate::chroma::iabs(v.avg_pb - sm.pb)
                <= 150000 && crate::chroma::iabs(v.avg_pr - sm.pr) <= 150000
        }),
{
    let nf = crate::format::spec_normalize(px, denominator);
    crate::format::lemma_normalize_in_range(px, denominator);
    lemma_ypbpr_in_range(nf);
    let sm = spec_ypbpr(nf);
    let y = sm.y as int;
    let pbv = sm.pb as int;
    let prv = sm.pr as int;
    lemma_uniform_block_forward(y);
    lemma_uniform_chroma_round_trip(pbv);
    lemma_uniform_chroma_round_trip(prv);
    crate::chroma::lemma_index_range(pbv);
    crate::chroma::lemma_index_range(prv);
    assert(0 <= y * 511 <= 511 * (SCALE as int));
    lemma_rdiv_range(y * 511, SCALE as int, 511);
    let cb = spec_dct(sm, sm, sm, sm);
    let p = PackedValues { a: cb.a, b: cb.b, c: cb.c, d: cb.d, avg_pb: cb.avg_pb, avg_pr: cb.avg_pr };
    assert(p.a as int == quant_a(y));
    assert(p.b == 0 && p.c == 0 && p.d == 0);
    assert(p.avg_pb as int == spec_index_of_chroma(pbv));
    assert(p.avg_pr as int == spec_index_of_chroma(prv));
    lemma_flat_block_inverse(p, di, dj);
    lemma_luma_quant_error(y);
    crate::chroma::lemma_chroma_quant_error(pbv);
    crate::chroma::lemma_chroma_quant_error(prv);
    lemma_chroma_rep_range(p.avg_pb as int);
    lemma_chroma_rep_range(p.avg_pr as int);
}

/// A decoded sample close to a pixel's exact luma/chroma sample decodes
/// to a pixel with bounded per-channel error: within a luma error of
/// `0.001` and chroma errors of `0.15` of full scale, every channel
/// moves by at most `0.270001 * denominator + 0.5` pixel levels. The
/// bound is dominated by the chroma leg: the widest table half-gap,
/// `0.15`, scaled by the largest inverse-matrix coefficient, `1.772`.
#[verifier::rlimit(100)]
pub proof fn lemma_decoded_pixel_error(v: DCTValues, px: Rgb, denominator: u16)
    requires
        denominator >= 1,
        px.red <= denominator,
        px.green <= denominator,
        px.blue <= denominator,
        crate::chroma::iabs(v.yval - spec_y(crate::format::spec_normalize(px, denominator)))
            <= 1000,
        crate::chroma::iabs(v.avg_pb - spec_pb(crate::format::spec_normalize(px, denominator)))
            <= 150000,
        crate::chroma::iabs(v.avg_pr - spec_pr(crate::format::spec_normalize(px, denominator)))
            <= 150000,
    ensures
        1000000 * crate::chroma::iabs(spec_rgb_of(v, denominator).red - px.red) <= 270001 * (
        denominator as int) + 500000,
        1000000 * crate::chroma::iabs(spec_rgb_of(v, denominator).green - px.green) <= 270001 * (
        denominator as int) + 500000,
        1000000 * crate::chroma::iabs(spec_rgb_of(v, denominator).blue - px.blue) <= 270001 * (
        denominator as int) + 500000,
{
    let nf = crate::format::spec_normalize(px, denominator);
    crate::format::lemma_normalize_in_range(px, denominator);
    lemma_ypbpr_in_range(nf);
    let sm = spec_ypbpr(nf);
    lemma_inverse_matrix_error(nf);
    crate::fixed::lemma_rdiv_error(1402000 * (sm.pr as int), 1000000);
    crate::fixed::lemma_rdiv_error(1402000 * (v.avg_pr as int), 1000000);
    crate::fixed::lemma_rdiv_error(344136 * (sm.pb as int) + 714136 * (sm.pr as int), 1000000);
    crate::fixed::lemma_rdiv_error(344136 * (v.avg_pb as int) + 714136 * (v.avg_pr as int), 1000000);
    crate::fixed::lemma_rdiv_error(1772000 * (sm.pb as int), 1000000);
    crate::fixed::lemma_rdiv_error(1772000 * (v.avg_pb as int), 1000000);
    assert(crate::chroma::iabs(spec_red_fx(v) - nf.red) <= 270000);
    assert(crate::chroma::iabs(spec_green_fx(v) - nf.green) <= 270000);
    assert(crate::chroma::iabs(spec_blue_fx(v) - nf.blue) <= 270000);
    lemma_channel_leg(spec_red_fx(v), nf.red as int, px.red as int, denominator, 270000);
    lemma_channel_leg(spec_green_fx(v), nf.green as int, px.green as int, denominator, 270000);
    lemma_channel_leg(spec_blue_fx(v), nf.blue as int, px.blue as int, denominator, 270000);
    lemma_channel_range(spec_red_fx(v), denominator);
    lemma_channel_range(spec_green_fx(v), denominator);
    lemma_channel_range(spec_blue_fx(v), denominator);
}

/// Converts every decoded sample back to an integer RGB pixel, clamping
/// each channel to the unit interval before scaling by the denominator.
pub fn dct_to_rgb(dct_val_list: &Vec<DCTValues>, denominator: u16) -> (r: Vec<Rgb>)
    requires
        denominator >= 1,
        forall|k: int|
            0 <= k < dct_val_list@.len() ==> dct_values_in_range(#[trigger] dct_val_list@[k]),
    ensures
        r@.len() == dct_val_list@.len(),
        forall|k: int|
            0 <= k < r@.len() ==> #[trigger] r@[k] == spec_rgb_of(dct_val_list@[k], denominator),
{
    let mut out: Vec<Rgb> = Vec::new();
    let mut i: usize = 0;
    while i < dct_val_list.len()
        invariant
            i <= dct_val_list@.len(),
            out@.len() == i,
            denominator >= 1,
            forall|k: int|
                0 <= k < dct_val_list@.len() ==> dct_values_in_range(#[trigger] dct_val_list@[k]),
            forall|k: int|
                0 <= k < i ==> #[trigger] out@[k] == spec_rgb_of(dct_val_list@[k], denominator),
        decreases dct_val_list@.len() - i,
    {
        let v = dct_val_list[i];
        proof {
            lemma_rdiv_range(1402000 * v.avg_pr, 1000000, 701000);
            lemma_rdiv_range(344136 * v.avg_pb + 714136 * v.avg_pr, 1000000, 530000);
            lemma_rdiv_range(1772000 * v.avg_pb, 1000000, 886000);
            lemma_channel_range(spec_red_fx(v), denominator);
            lemma_channel_range(spec_green_fx(v), denominator);
            lemma_channel_range(spec_blue_fx(v), denominator);
        }
        let red_fx = v.yval + rdiv_i64(1402000 * v.avg_pr, 1000000);
        let green_fx = v.yval - rdiv_i64(344136 * v.avg_pb + 714136 * v.avg_pr, 1000000);
        let blue_fx = v.yval + rdiv_i64(1772000 * v.avg_pb, 1000000);
        let red = rdiv_i64(clamp_i64(red_fx, 0, SCALE) * (denominator as i64), SCALE);
        let green = rdiv_i64(clamp_i64(green_fx, 0, SCALE) * (denominator as i64), SCALE);
        let blue = rdiv_i64(clamp_i64(blue_fx, 0, SCALE) * (denominator as i64), SCALE);
        out.push(Rgb { red: red as u16, green: green as u16, blue: blue as u16 });
        i = i + 1;
    }
    out
}

} // verus!
