use rpeg::codec::{compress, decompress, pack_blocks};
use rpeg::conversion::{dct, rgbto_ypbpr, CodedBlock, Ypbpr};
use rpeg::format::{
    divide_denom, load_words, pack_word, trim_img, unpack_word, CodecError, PackedValues, Rgb,
};

/// Compresses and decompresses through the library, as a caller would.
fn round_trip(pixels: Vec<Rgb>, width: u32, height: u32, denominator: u16) -> (u32, u32, Vec<Rgb>) {
    let (nw, nh, blocks) = compress(&pixels, width, height, denominator);
    let words = pack_blocks(&blocks).unwrap();
    let unpacked = load_words(&words);
    let out = decompress(&unpacked, nw, nh, denominator).unwrap();
    (nw, nh, out)
}

#[test]
fn pack_word_exact_layout() {
    let p = PackedValues { a: 300, b: -10, c: 5, d: -1, avg_pb: 3, avg_pr: 12 };
    let w = pack_word(&p).unwrap();
    assert_eq!(w, 2522398524u32);
    assert_eq!(unpack_word(w), p);
}

#[test]
fn pack_word_field_overflow() {
    let base = PackedValues { a: 0, b: 0, c: 0, d: 0, avg_pb: 0, avg_pr: 0 };
    assert_eq!(pack_word(&PackedValues { a: 512, ..base }), Err(CodecError::FieldOverflow));
    assert_eq!(pack_word(&PackedValues { b: 16, ..base }), Err(CodecError::FieldOverflow));
    assert_eq!(pack_word(&PackedValues { c: -17, ..base }), Err(CodecError::FieldOverflow));
    assert_eq!(pack_word(&PackedValues { avg_pr: 16, ..base }), Err(CodecError::FieldOverflow));
}

#[test]
fn load_words_splits_fields() {
    let words = vec![2522398524u32, 119u32];
    let unpacked = load_words(&words);
    assert_eq!(unpacked.len(), 2);
    assert_eq!(unpacked[0], PackedValues { a: 300, b: -10, c: 5, d: -1, avg_pb: 3, avg_pr: 12 });
    assert_eq!(unpacked[1], PackedValues { a: 0, b: 0, c: 0, d: 0, avg_pb: 7, avg_pr: 7 });
}

#[test]
fn trim_keeps_retained_region() {
    // A 3x3 image trimmed to 2x2 keeps the top-left pixels unchanged.
    let px = |v: u16| Rgb { red: v, green: v, blue: v };
    let pixels = vec![
        px(0), px(1), px(2),
        px(3), px(4), px(5),
        px(6), px(7), px(8),
    ];
    let trimmed = trim_img(&pixels, 3, 2, 2);
    assert_eq!(trimmed, vec![px(0), px(1), px(3), px(4)]);
}

#[test]
fn divide_denom_normalizes() {
    let pixels = vec![Rgb { red: 255, green: 0, blue: 128 }];
    let fixed = divide_denom(&pixels, 255);
    assert_eq!(fixed[0].red, 1_000_000);
    assert_eq!(fixed[0].green, 0);
    assert_eq!(fixed[0].blue, 501_961);
}

#[test]
fn gray_pixel_has_zero_chroma() {
    let pixels = vec![Rgb { red: 128, green: 128, blue: 128 }];
    let fixed = divide_denom(&pixels, 255);
    let samples = rgbto_ypbpr(&fixed);
    assert_eq!(samples[0].y, 501_961);
    assert_eq!(samples[0].pb, 0);
    assert_eq!(samples[0].pr, 0);
}

#[test]
fn uniform_block_has_zero_detail() {
    // Four identical lumas forward-transform to b = c = d = 0, and zero
    // chroma quantizes to the index nearest zero.
    let s = Ypbpr { y: 501_961, pb: 0, pr: 0 };
    let samples = vec![s, s, s, s];
    let cb = dct(&samples, 2, 2, 0, 0);
    assert_eq!(cb.a, 257);
    assert_eq!(cb.b, 0);
    assert_eq!(cb.c, 0);
    assert_eq!(cb.d, 0);
    assert_eq!(cb.avg_pb, 7);
    assert_eq!(cb.avg_pr, 7);
}

#[test]
fn flat_block_decodes_uniformly() {
    // Inverse-transforming (a, 0, 0, 0) yields four identical samples.
    let word = (257u32 << 23) | (7 << 4) | 7;
    let words = load_words(&vec![word]);
    let out = decompress(&words, 2, 2, 255).unwrap();
    assert_eq!(out.len(), 4);
    assert!(out.iter().all(|p| *p == out[0]));
    assert_eq!(out[0], Rgb { red: 124, green: 131, blue: 123 });
}

#[test]
fn all_black_image_compresses_to_one_word() {
    // A 2x2 all-black image yields a single word with a = b = c = d = 0
    // and both chroma indices nearest to zero chroma.
    let black = Rgb { red: 0, green: 0, blue: 0 };
    let (nw, nh, blocks) = compress(&vec![black; 4], 2, 2, 255);
    assert_eq!((nw, nh), (2, 2));
    assert_eq!(blocks.len(), 1);
    assert_eq!(blocks[0].a, 0);
    assert_eq!(blocks[0].b, 0);
    assert_eq!(blocks[0].c, 0);
    assert_eq!(blocks[0].d, 0);
    assert_eq!(blocks[0].avg_pb, 7);
    assert_eq!(blocks[0].avg_pr, 7);
    let words = pack_blocks(&blocks).unwrap();
    assert_eq!(words, vec![119u32]);
}

#[test]
fn all_black_word_decodes_near_black() {
    let words = load_words(&vec![119u32]);
    let out = decompress(&words, 2, 2, 255).unwrap();
    assert_eq!(out.len(), 4);
    for p in &out {
        assert_eq!(p.red, 0);
        assert_eq!(p.green, 3);
        assert_eq!(p.blue, 0);
    }
}

#[test]
fn round_trip_preserves_dimensions_and_bounds_error() {
    // Even dimensions survive a full compress/decompress cycle, and the
    // per-channel error of a uniform image stays small.
    let gray = Rgb { red: 128, green: 128, blue: 128 };
    let (nw, nh, out) = round_trip(vec![gray; 16], 4, 4, 255);
    assert_eq!((nw, nh), (4, 4));
    assert_eq!(out.len(), 16);
    for p in &out {
        assert!((p.red as i32 - 128).abs() <= 10);
        assert!((p.green as i32 - 128).abs() <= 10);
        assert!((p.blue as i32 - 128).abs() <= 10);
        assert_eq!(*p, out[0]);
    }
}

#[test]
fn odd_dimensions_are_trimmed() {
    // Odd width and height drop the last column and row.
    let gray = Rgb { red: 100, green: 100, blue: 100 };
    let (nw, nh, out) = round_trip(vec![gray; 15], 5, 3, 255);
    assert_eq!((nw, nh), (4, 2));
    assert_eq!(out.len(), 8);
}

#[test]
fn pack_blocks_rejects_bad_field() {
    let good = CodedBlock { a: 0, b: 0, c: 0, d: 0, avg_pb: 7, avg_pr: 7 };
    let bad = CodedBlock { a: 0, b: 0, c: 0, d: 0, avg_pb: 16, avg_pr: 7 };
    let r = pack_blocks(&vec![good, bad]);
    assert_eq!(r, Err(CodecError::FieldOverflow));
}

#[test]
fn decompress_rejects_bad_dimensions() {
    let words = load_words(&vec![119u32]);
    // Odd width.
    assert_eq!(decompress(&words, 3, 2, 255), Err(CodecError::DimensionMismatch));
    // Block count does not match the dimensions.
    assert_eq!(decompress(&words, 4, 4, 255), Err(CodecError::DimensionMismatch));
}

#[test]
fn forward_transform_exact_coefficients() {
    // A block with distinct lumas quantizes to exact coefficients.
    let s = |y: i64| Ypbpr { y, pb: 0, pr: 0 };
    let samples = vec![s(0), s(200_000), s(400_000), s(600_000)];
    let cb = dct(&samples, 2, 2, 0, 0);
    assert_eq!(cb.a, 153);
    assert_eq!(cb.b, 10);
    assert_eq!(cb.c, 5);
    assert_eq!(cb.d, 0);
}

#[test]
fn detail_coefficients_are_clamped() {
    // A block of extreme vertical contrast clamps b to the top of its
    // range before quantizing.
    let s = |y: i64| Ypbpr { y, pb: 0, pr: 0 };
    let samples = vec![s(0), s(0), s(1_000_000), s(1_000_000)];
    let cb = dct(&samples, 2, 2, 0, 0);
    assert_eq!(cb.b, 15);
    assert_eq!(cb.c, 0);
    assert_eq!(cb.d, 0);
}
