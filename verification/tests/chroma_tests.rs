use csc411_arith::{chroma_of_index, index_of_chroma};
use rpeg::chroma::{chroma_of_index_fx, index_of_chroma_fx};

#[test]
fn chroma_index_round_trip_is_fixed_point() {
    // Dequantizing any valid chroma index and quantizing the value
    // again returns the index.
    for i in 0..16u64 {
        assert_eq!(index_of_chroma_fx(chroma_of_index_fx(i)), i);
    }
}

#[test]
fn quantizer_picks_nearest_entry() {
    assert_eq!(index_of_chroma_fx(-500_000), 0);
    assert_eq!(index_of_chroma_fx(-300_000), 0);
    assert_eq!(index_of_chroma_fx(-250_000), 1);
    assert_eq!(index_of_chroma_fx(-80_000), 4);
    assert_eq!(index_of_chroma_fx(0), 7);
    assert_eq!(index_of_chroma_fx(120_000), 12);
    assert_eq!(index_of_chroma_fx(250_000), 14);
    assert_eq!(index_of_chroma_fx(300_000), 15);
    assert_eq!(index_of_chroma_fx(500_000), 15);
}

#[test]
fn quantizer_breaks_ties_to_the_lower_index() {
    // 22000 is equidistant from the entries 11000 and 33000.
    assert_eq!(index_of_chroma_fx(22_000), 8);
    // Zero is equidistant from -11000 and 11000.
    assert_eq!(index_of_chroma_fx(0), 7);
}

#[test]
fn table_matches_the_collaborator() {
    // The fixed-point table is the collaborator's table at scale 10^6,
    // and both quantizers agree on the representative values.
    for i in 0..16usize {
        let fx = chroma_of_index_fx(i as u64);
        let float_entry = (chroma_of_index(i) as f64 * 1_000_000.0).round() as i64;
        assert_eq!(fx, float_entry);
        assert_eq!(index_of_chroma_fx(fx) as usize, index_of_chroma(chroma_of_index(i)));
    }
}
