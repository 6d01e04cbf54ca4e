use rpeg::bitfield::{getu, gets, newu, news};

#[test]
fn unsigned_round_trip_exact() {
    // Packing a value into an unsigned field and extracting it returns
    // the value, for every width it fits.
    let word = 0xDEAD_BEEF_0000_0000u64;
    for width in 1..10u64 {
        let max = (1u64 << width) - 1;
        for value in [0u64, 1, max / 2, max] {
            let packed = newu(word, width, 20, value).unwrap();
            assert_eq!(getu(packed, width, 20), value);
        }
    }
}

#[test]
fn unsigned_pack_fails_out_of_range() {
    // A value of 2^width or more does not fit and fails to pack.
    assert_eq!(newu(0, 9, 23, 512), None);
    assert_eq!(newu(0, 4, 0, 16), None);
    assert!(newu(0, 9, 23, 511).is_some());
    assert!(newu(0, 4, 0, 15).is_some());
}

#[test]
fn signed_round_trip_exact() {
    // Packing a signed value and extracting it returns the value, over
    // the whole two's-complement range of the field.
    let word = 0x1234_5678_9ABC_DEF0u64;
    for value in -16i64..=15i64 {
        let packed = news(word, 5, 8, value).unwrap();
        assert_eq!(gets(packed, 5, 8), value);
    }
}

#[test]
fn signed_pack_fails_out_of_range() {
    assert_eq!(news(0, 5, 8, 16), None);
    assert_eq!(news(0, 5, 8, -17), None);
    assert!(news(0, 5, 8, 15).is_some());
    assert!(news(0, 5, 8, -16).is_some());
}

#[test]
fn packing_preserves_other_fields() {
    // Packing one field leaves a disjoint field untouched.
    let w1 = newu(0, 9, 23, 300).unwrap();
    let w2 = news(w1, 5, 18, -7).unwrap();
    assert_eq!(getu(w2, 9, 23), 300);
    assert_eq!(gets(w2, 5, 18), -7);
}
