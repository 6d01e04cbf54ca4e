//! The compression pipeline: trimming, block iteration and word
//! assembly on the forward path, and their inverses on the reverse path.

use vstd::prelude::*;
use crate::chroma::chroma_rep;
use crate::format::{
    Rgb,
    PackedValues,
    CodecError,
    trim_img,
    divide_denom,
    spec_normalize,
    packed_in_range,
    pack_word,
    spec_unpack,
};
use crate::conversion::{
    Ypbpr,
    CodedBlock,
    spec_ypbpr,
    spec_dct,
    spec_dct_values,
    spec_block_of,
    spec_rgb_of,
    coded_in_range,
    rgbto_ypbpr,
    dct,
    dct_function,
    dct_to_rgb,
};

verus! {

/// A dimension trimmed to even: the last column or row of an odd
/// dimension is dropped.
pub open spec fn trim_dim(x: int) -> int {
    x - x % 2
}

/// Trimming yields an even dimension, never grows it, and leaves an
/// even dimension unchanged.
pub proof fn lemma_trim_dim(x: int)
    requires
        x >= 0,
    ensures
        trim_dim(x) % 2 == 0,
        trim_dim(x) <= x,
        x % 2 == 0 ==> trim_dim(x) == x,
{
}

/// The luma/chroma sample of the pixel at row `i`, column `j`.
#[verifier::opaque]
pub open spec fn spec_sample(
    pixels: Seq<Rgb>,
    width: int,
    denominator: u16,
    i: int,
    j: int,
) -> Ypbpr {
    spec_ypbpr(spec_normalize(pixels[i * width + j], denominator))
}

/// The forward transform of block `(bi, bj)`: the 2x2 pixels whose
/// top-left corner is row `2 * bi`, column `2 * bj`.
#[verifier::opaque]
pub open spec fn spec_compress_block(
    pixels: Seq<Rgb>,
    width: int,
    denominator: u16,
    bi: int,
    bj: int,
) -> CodedBlock {
    spec_dct(
        spec_sample(pixels, width, denominator, 2 * bi, 2 * bj),
        spec_sample(pixels, width, denominator, 2 * bi, 2 * bj + 1),
        spec_sample(pixels, width, denominator, 2 * bi + 1, 2 * bj),
        spec_sample(pixels, width, denominator, 2 * bi + 1, 2 * bj + 1),
    )
}

/// Compresses an image into one coded block per 2x2 pixel block: trims
/// to even dimensions, normalizes by the denominator, converts to
/// luma/chroma and forward-transforms each block, in row-major block
/// order. Returns the trimmed width, the trimmed height and the blocks.
#[verifier::rlimit(100)]
pub fn compress(pixels: &Vec<Rgb>, width: u32, height: u32, denominator: u16) -> (r: (
    u32,
    u32,
    Vec<CodedBlock>,
))
    requires
        pixels@.len() == (width as int) * (height as int),
        denominator >= 1,
        forall|k: int|
            0 <= k < pixels@.len() ==> (#[trigger] pixels@[k]).red <= denominator
                && pixels@[k].green <= denominator && pixels@[k].blue <= denominator,
    ensures
        r.0 == trim_dim(width as int),
        r.1 == trim_dim(height as int),
        r.2@.len() == ((r.0 as int) / 2) * ((r.1 as int) / 2),
        forall|n: int|
            0 <= n < r.2@.len() ==> (#[trigger] r.2@[n]) == spec_compress_block(
                pixels@,
                width as int,
                denominator,
                n / ((r.0 as int) / 2),
                n % ((r.0 as int) / 2),
            ) && coded_in_range(r.2@[n]),
{
    let _pixel_count = pixels.len();
    let nw = width - width % 2;
    let nh = height - height % 2;
    proof {
        assert((nh as int) * (width as int) <= (width as int) * (height as int) && (nw as int) * (
        nh as int) <= (width as int) * (height as int)) by (nonlinear_arith)
            requires
                nw <= width,
                nh <= height,
        ;
    }
    let trimmed = trim_img(pixels, width, nw, nh);
    proof {
        assert forall|k: int| 0 <= k < trimmed@.len() implies (#[trigger] trimmed@[k]).red
            <= denominator && trimmed@[k].green <= denominator && trimmed@[k].blue
            <= denominator by {
            lemma_trim_source_index(k, nw as int, nh as int, width as int, height as int);
        }
    }
    let deci = divide_denom(&trimmed, denominator);
    let pb_vector = rgbto_ypbpr(&deci);
    let nw2 = nw / 2;
    let nh2 = nh / 2;
    proof {
        vstd::arithmetic::div_mod::lemma_fundamental_div_mod(nw as int, 2);
        vstd::arithmetic::div_mod::lemma_fundamental_div_mod(nh as int, 2);
        assert forall|k: int| 0 <= k < pb_vector@.len() implies #[trigger] pb_vector@[k]
            == spec_sample(
            pixels@,
            width as int,
            denominator,
            k / (nw as int),
            k % (nw as int),
        ) && crate::conversion::ypbpr_in_range(pb_vector@[k]) by {
            reveal(spec_sample);
            assert(pb_vector@[k] == spec_ypbpr(deci@[k]));
            assert(deci@[k] == spec_normalize(trimmed@[k], denominator));
            assert(trimmed@[k] == pixels@[(k / (nw as int)) * (width as int) + k % (nw as int)]);
        }
    }
    let mut blocks: Vec<CodedBlock> = Vec::new();
    let mut bi: u32 = 0;
    while bi < nh2
        invariant
            bi <= nh2,
            nw2 == nw / 2,
            nh2 == nh / 2,
            nw == 2 * nw2,
            nh == 2 * nh2,
            nw <= width,
            denominator >= 1,
            pb_vector@.len() == (nw as int) * (nh as int),
            forall|k: int|
                0 <= k < pb_vector@.len() ==> #[trigger] pb_vector@[k] == spec_sample(
                    pixels@,
                    width as int,
                    denominator,
                    k / (nw as int),
                    k % (nw as int),
                ) && crate::conversion::ypbpr_in_range(pb_vector@[k]),
            blocks@.len() == bi * nw2,
            forall|n: int|
                0 <= n < blocks@.len() ==> (#[trigger] blocks@[n]) == spec_compress_block(
                    pixels@,
                    width as int,
                    denominator,
                    n / (nw2 as int),
                    n % (nw2 as int),
                ) && coded_in_range(blocks@[n]),
        decreases nh2 - bi,
    {
        let mut bj: u32 = 0;
        while bj < nw2
            invariant
                bi < nh2,
                bj <= nw2,
                nw2 == nw / 2,
                nh2 == nh / 2,
                nw == 2 * nw2,
                nh == 2 * nh2,
                nw <= width,
                denominator >= 1,
                pb_vector@.len() == (nw as int) * (nh as int),
                forall|k: int|
                    0 <= k < pb_vector@.len() ==> #[trigger] pb_vector@[k] == spec_sample(
                        pixels@,
                        width as int,
                        denominator,
                        k / (nw as int),
                        k % (nw as int),
                    ) && crate::conversion::ypbpr_in_range(pb_vector@[k]),
                blocks@.len() == bi * nw2 + bj,
                forall|n: int|
                    0 <= n < blocks@.len() ==> (#[trigger] blocks@[n]) == spec_compress_block(
                        pixels@,
                        width as int,
                        denominator,
                        n / (nw2 as int),
                        n % (nw2 as int),
                    ) && coded_in_range(blocks@[n]),
            decreases nw2 - bj,
        {
            let cb = encode_block(
                &pb_vector,
                nw,
                nh,
                bi,
                bj,
                denominator,
                Ghost(pixels@),
                Ghost(width as int),
            );
            proof {
                crate::array2::lemma_row_major_in_bounds(
                    nw2 as int,
                    nh2 as int,
                    bj as int,
                    bi as int,
                );
                vstd::arithmetic::div_mod::lemma_fundamental_div_mod_converse(
                    (bi as int) * (nw2 as int) + (bj as int),
                    nw2 as int,
                    bi as int,
                    bj as int,
                );
            }
            blocks.push(cb);
            bj = bj + 1;
        }
        proof {
            crate::array2::lemma_row_major_step(nw2 as int, bi as int);
        }
        bi = bi + 1;
    }
    proof {
        vstd::arithmetic::mul::lemma_mul_is_commutative(nw2 as int, nh2 as int);
    }
    (nw, nh, blocks)
}

/// Forward-transforms block `(bi, bj)` of a trimmed image whose
/// luma/chroma samples are already computed.
fn encode_block(
    pb_vector: &Vec<Ypbpr>,
    nw: u32,
    nh: u32,
    bi: u32,
    bj: u32,
    denominator: u16,
    pixels: Ghost<Seq<Rgb>>,
    width: Ghost<int>,
) -> (cb: CodedBlock)
    requires
        nw % 2 == 0,
        nh % 2 == 0,
        bi < nh / 2,
        bj < nw / 2,
        pb_vector@.len() == (nw as int) * (nh as int),
        forall|k: int|
            0 <= k < pb_vector@.len() ==> #[trigger] pb_vector@[k] == spec_sample(
                pixels@,
                width@,
                denominator,
                k / (nw as int),
                k % (nw as int),
            ) && crate::conversion::ypbpr_in_range(pb_vector@[k]),
    ensures
        cb == spec_compress_block(pixels@, width@, denominator, bi as int, bj as int),
        coded_in_range(cb),
{
    proof {
        vstd::arithmetic::div_mod::lemma_fundamental_div_mod(nw as int, 2);
        vstd::arithmetic::div_mod::lemma_fundamental_div_mod(nh as int, 2);
    }
    let row = 2 * bi;
    let col = 2 * bj;
    let cb = dct(&pb_vector, nw, nh, row, col);
    proof {
        let nwi = nw as int;
        let bii = bi as int;
        let bji = bj as int;
        lemma_sample_positions(bii, bji, nwi, nh as int, nwi / 2, (nh as int) / 2);
        let k1 = (2 * bii) * nwi + 2 * bji;
        let k2 = (2 * bii) * nwi + 2 * bji + 1;
        let k3 = (2 * bii + 1) * nwi + 2 * bji;
        let k4 = (2 * bii + 1) * nwi + 2 * bji + 1;
        assert(0 <= k1 < pb_vector@.len() && 0 <= k2 < pb_vector@.len() && 0 <= k3
            < pb_vector@.len() && 0 <= k4 < pb_vector@.len());
        assert(k1 / nwi == 2 * bii && k1 % nwi == 2 * bji);
        assert(k2 / nwi == 2 * bii && k2 % nwi == 2 * bji + 1);
        assert(k3 / nwi == 2 * bii + 1 && k3 % nwi == 2 * bji);
        assert(k4 / nwi == 2 * bii + 1 && k4 % nwi == 2 * bji + 1);
        assert(pb_vector@[k1] == spec_sample(pixels@, width@, denominator, k1 / nwi, k1 % nwi));
        assert(pb_vector@[k2] == spec_sample(pixels@, width@, denominator, k2 / nwi, k2 % nwi));
        assert(pb_vector@[k3] == spec_sample(pixels@, width@, denominator, k3 / nwi, k3 % nwi));
        assert(pb_vector@[k4] == spec_sample(pixels@, width@, denominator, k4 / nwi, k4 % nwi));
        reveal(spec_compress_block);
        assert(cb == spec_compress_block(pixels@, width@, denominator, bii, bji));
    }
    cb
}

/// A retained pixel's source offset lies inside the untrimmed image.
proof fn lemma_trim_source_index(k: int, nw: int, nh: int, w: int, h: int)
    by (nonlinear_arith)
    requires
        0 <= k < nw * nh,
        0 < nw <= w,
        nh <= h,
    ensures
        0 <= (k / nw) * w + k % nw < w * h,
{
}

/// The four sample offsets of block `(bi, bj)` divide and reduce back
/// to their row and column positions.
proof fn lemma_sample_positions(bi: int, bj: int, nw: int, nh: int, nw2: int, nh2: int)
    requires
        nw == 2 * nw2,
        nh == 2 * nh2,
        0 <= bi < nh2,
        0 <= bj < nw2,
    ensures
        ((2 * bi) * nw + 2 * bj) / nw == 2 * bi && ((2 * bi) * nw + 2 * bj) % nw == 2 * bj,
        ((2 * bi) * nw + 2 * bj + 1) / nw == 2 * bi && ((2 * bi) * nw + 2 * bj + 1) % nw == 2 * bj
            + 1,
        ((2 * bi + 1) * nw + 2 * bj) / nw == 2 * bi + 1 && ((2 * bi + 1) * nw + 2 * bj) % nw == 2
            * bj,
        ((2 * bi + 1) * nw + 2 * bj + 1) / nw == 2 * bi + 1 && ((2 * bi + 1) * nw + 2 * bj + 1) % nw
            == 2 * bj + 1,
        0 <= (2 * bi) * nw + 2 * bj < nw * nh,
        0 <= (2 * bi) * nw + 2 * bj + 1 < nw * nh,
        0 <= (2 * bi + 1) * nw + 2 * bj < nw * nh,
        0 <= (2 * bi + 1) * nw + 2 * bj + 1 < nw * nh,
{
    crate::array2::lemma_row_major_in_bounds(nw, nh, 2 * bj, 2 * bi);
    crate::array2::lemma_row_major_in_bounds(nw, nh, 2 * bj + 1, 2 * bi);
    crate::array2::lemma_row_major_in_bounds(nw, nh, 2 * bj, 2 * bi + 1);
    crate::array2::lemma_row_major_in_bounds(nw, nh, 2 * bj + 1, 2 * bi + 1);
    vstd::arithmetic::div_mod::lemma_fundamental_div_mod_converse(
        (2 * bi) * nw + 2 * bj,
        nw,
        2 * bi,
        2 * bj,
    );
    vstd::arithmetic::div_mod::lemma_fundamental_div_mod_converse(
        (2 * bi) * nw + 2 * bj + 1,
        nw,
        2 * bi,
        2 * bj + 1,
    );
    vstd::arithmetic::div_mod::lemma_fundamental_div_mod_converse(
        (2 * bi + 1) * nw + 2 * bj,
        nw,
        2 * bi + 1,
        2 * bj,
    );
    vstd::arithmetic::div_mod::lemma_fundamental_div_mod_converse(
        (2 * bi + 1) * nw + 2 * bj + 1,
        nw,
        2 * bi + 1,
        2 * bj + 1,
    );
}

/// The word fields of one coded block.
pub open spec fn spec_packed_of(cb: CodedBlock) -> PackedValues {
    PackedValues { a: cb.a, b: cb.b, c: cb.c, d: cb.d, avg_pb: cb.avg_pb, avg_pr: cb.avg_pr }
}

/// Packs every coded block into one 32-bit word; fails with
/// `FieldOverflow` exactly when some field of some block does not fit
/// its declared bit width.
pub fn pack_blocks(blocks: &Vec<CodedBlock>) -> (r: Result<Vec<u32>, CodecError>)
    ensures
        match r {
            Ok(words) => words@.len() == blocks@.len() && forall|n: int|
                0 <= n < blocks@.len() ==> packed_in_range(#[trigger] spec_packed_of(blocks@[n]))
                    && spec_unpack(words@[n] as u64) == spec_packed_of(blocks@[n]),
            Err(e) => e == CodecError::FieldOverflow && exists|n: int|
                0 <= n < blocks@.len() && !packed_in_range(#[trigger] spec_packed_of(blocks@[n])),
        },
{
    let mut words: Vec<u32> = Vec::new();
    let mut n: usize = 0;
    while n < blocks.len()
        invariant
            n <= blocks@.len(),
            words@.len() == n,
            forall|k: int|
                0 <= k < n ==> packed_in_range(#[trigger] spec_packed_of(blocks@[k]))
                    && spec_unpack(words@[k] as u64) == spec_packed_of(blocks@[k]),
        decreases blocks@.len() - n,
    {
        let cb = blocks[n];
        let p = PackedValues {
            a: cb.a,
            b: cb.b,
            c: cb.c,
            d: cb.d,
            avg_pb: cb.avg_pb,
            avg_pr: cb.avg_pr,
        };
        match pack_word(&p) {
            Ok(w) => {
                words.push(w);
            },
            Err(e) => {
                proof {
                    assert(!packed_in_range(spec_packed_of(blocks@[n as int])));
                }
                return Err(e);
            },
        }
        n = n + 1;
    }
    Ok(words)
}

/// Rebuilds an approximate image from its packed blocks:
/// inverse-transforms every block, dequantizing its chroma indices, and
/// converts the samples back to integer RGB pixels. Fails with
/// `DimensionMismatch` exactly when the dimensions are not both even,
/// the block count does not match them, or the pixel count would
/// overflow the machine.
pub fn decompress(words: &Vec<PackedValues>, width: u32, height: u32, denominator: u16) -> (r:
    Result<Vec<Rgb>, CodecError>)
    requires
        denominator >= 1,
        forall|k: int| 0 <= k < words@.len() ==> packed_in_range(#[trigger] words@[k]),
    ensures
        match r {
            Ok(pix) => width % 2 == 0 && height % 2 == 0 && words@.len() == ((width as int) / 2) * (
            (height as int) / 2) && (width as int) * (height as int) <= usize::MAX && pix@.len()
                == (width as int) * (height as int) && forall|k: int|
                0 <= k < pix@.len() ==> #[trigger] pix@[k] == spec_rgb_of(
                    spec_dct_values(
                        words@[spec_block_of(k, width as int)],
                        chroma_rep(words@[spec_block_of(k, width as int)].avg_pb as int) as i64,
                        chroma_rep(words@[spec_block_of(k, width as int)].avg_pr as int) as i64,
                        (k / (width as int)) % 2,
                        (k % (width as int)) % 2,
                    ),
                    denominator,
                ),
            Err(e) => e == CodecError::DimensionMismatch && !(width % 2 == 0 && height % 2 == 0
                && words@.len() == ((width as int) / 2) * ((height as int) / 2) && (width as int) * (
            height as int) <= usize::MAX),
        },
{
    if width % 2 != 0 || height % 2 != 0 {
        return Err(CodecError::DimensionMismatch);
    }
    let w2u = width as u64 / 2;
    let h2u = height as u64 / 2;
    proof {
        assert(w2u * h2u < 0x4000_0000_0000_0000u64 && (width as u64) * (height as u64)
            < 0xFFFF_FFFF_FFFF_FFFFu64) by (nonlinear_arith)
            requires
                w2u < 0x8000_0000u64,
                h2u < 0x8000_0000u64,
                width < 0x1_0000_0000u64,
                height < 0x1_0000_0000u64,
        ;
    }
    let expected = w2u * h2u;
    if (words.len() as u64) != expected {
        return Err(CodecError::DimensionMismatch);
    }
    let total = (width as u64) * (height as u64);
    if total > (usize::MAX as u64) {
        return Err(CodecError::DimensionMismatch);
    }
    let values = dct_function(words, width, height);
    let pixels = dct_to_rgb(&values, denominator);
    Ok(pixels)
}

} // verus!
