//! Bit-field packing and extraction inside a 64-bit machine word.
//!
//! A field is `width` bits wide and starts `lsb` bits above the least
//! significant end of the word. Packing a value that does not fit the
//! field fails; extraction always succeeds. Signed fields use two's
//! complement inside the field.

use vstd::prelude::*;

verus! {

/// A mask of `width` low bits.
pub open spec fn umask(width: u64) -> u64
    recommends
        width < 64,
{
    ((1u64 << width) - 1) as u64
}

/// The unsigned value held by the `width`-bit field at `lsb`.
pub open spec fn ufield(word: u64, width: u64, lsb: u64) -> u64
    recommends
        1 <= width <= 63,
        width + lsb <= 64,
{
    (word >> lsb) & umask(width)
}

/// `word` with the `width`-bit field at `lsb` replaced by `value`.
pub open spec fn set_ufield(word: u64, width: u64, lsb: u64, value: u64) -> u64
    recommends
        1 <= width <= 63,
        width + lsb <= 64,
        value < (1u64 << width),
{
    (word & !(umask(width) << lsb)) | (value << lsb)
}

/// The least value a `width`-bit signed field can hold.
pub open spec fn smin(width: u64) -> int
    recommends
        1 <= width <= 63,
{
    -((1u64 << ((width - 1) as u64)) as int)
}

/// The greatest value a `width`-bit signed field can hold.
pub open spec fn smax(width: u64) -> int
    recommends
        1 <= width <= 63,
{
    (1u64 << ((width - 1) as u64)) - 1
}

/// The two's-complement bit pattern of `value` in a `width`-bit field.
pub open spec fn sbits(value: i64, width: u64) -> u64
    recommends
        1 <= width <= 63,
        smin(width) <= value <= smax(width),
{
    if value >= 0 {
        value as u64
    } else {
        ((1u64 << width) - ((-value) as u64)) as u64
    }
}

/// The signed value held by the `width`-bit field at `lsb`, reading the
/// field as two's complement.
pub open spec fn sfield(word: u64, width: u64, lsb: u64) -> int
    recommends
        1 <= width <= 63,
        width + lsb <= 64,
{
    if ufield(word, width, lsb) >= (1u64 << ((width - 1) as u64)) {
        ufield(word, width, lsb) - (1u64 << width)
    } else {
        ufield(word, width, lsb) as int
    }
}

/// Extracts the unsigned `width`-bit field at `lsb` from `word`.
pub fn getu(word: u64, width: u64, lsb: u64) -> (r: u64)
    requires
        1 <= width <= 63,
        width + lsb <= 64,
    ensures
        r == ufield(word, width, lsb),
        r < (1u64 << width),
{
    proof {
        lemma_shift_pos(width);
        lemma_ufield_in_range(word, width, lsb);
    }
    (word >> lsb) & ((1u64 << width) - 1)
}

/// Packs the unsigned `value` into the `width`-bit field at `lsb` of
/// `word`, leaving every other bit as it was; fails exactly when `value`
/// does not fit in `width` bits.
pub fn newu(word: u64, width: u64, lsb: u64, value: u64) -> (r: Option<u64>)
    requires
        1 <= width <= 63,
        width + lsb <= 64,
    ensures
        match r {
            Some(w) => value < (1u64 << width) && w == set_ufield(word, width, lsb, value),
            None => value >= (1u64 << width),
        },
{
    proof {
        lemma_shift_pos(width);
    }
    let mask = (1u64 << width) - 1;
    if value > mask {
        None
    } else {
        Some((word & !(mask << lsb)) | (value << lsb))
    }
}

/// Extracts the signed `width`-bit field at `lsb` from `word`,
/// sign-extending from the field's top bit.
pub fn gets(word: u64, width: u64, lsb: u64) -> (r: i64)
    requires
        1 <= width <= 63,
        width + lsb <= 64,
    ensures
        r as int == sfield(word, width, lsb),
        smin(width) <= r as int <= smax(width),
{
    let u = getu(word, width, lsb);
    let half = 1u64 << (width - 1);
    proof {
        lemma_half_bound(width);
        lemma_sfield_in_range(word, width, lsb);
        assert(half == 1u64 << ((width - 1) as u64));
    }
    if u >= half {
        -(((1u64 << width) - u) as i64)
    } else {
        u as i64
    }
}

/// Packs the signed `value` into the `width`-bit field at `lsb` of
/// `word` as two's complement, leaving every other bit as it was; fails
/// exactly when `value` does not fit a signed `width`-bit field.
pub fn news(word: u64, width: u64, lsb: u64, value: i64) -> (r: Option<u64>)
    requires
        1 <= width <= 63,
        width + lsb <= 64,
    ensures
        match r {
            Some(w) => smin(width) <= value <= smax(width) && w == set_ufield(
                word,
                width,
                lsb,
                sbits(value, width),
            ),
            None => !(smin(width) <= value <= smax(width)),
        },
{
    let half = 1u64 << (width - 1);
    proof {
        lemma_half_bound(width);
    }
    if value >= 0 {
        if (value as u64) >= half {
            None
        } else {
            newu(word, width, lsb, value as u64)
        }
    } else if value < -(half as i64) {
        None
    } else {
        proof {
            lemma_sbits_fit(value, width);
        }
        let bits = (1u64 << width) - ((-value) as u64);
        newu(word, width, lsb, bits)
    }
}

/// A one shifted left inside a 64-bit word stays at least one.
proof fn lemma_shift_pos(width: u64)
    requires
        width <= 63,
    ensures
        1u64 << width >= 1,
{
    assert(1u64 << width >= 1) by (bit_vector)
        requires
            width <= 63,
    ;
}

/// The unsigned field value is below `2^width`.
proof fn lemma_ufield_in_range(word: u64, width: u64, lsb: u64)
    requires
        1 <= width <= 63,
        width + lsb <= 64,
    ensures
        ufield(word, width, lsb) < (1u64 << width),
{
    assert((word >> lsb) & (((1u64 << width) - 1) as u64) < (1u64 << width)) by (bit_vector)
        requires
            1 <= width <= 63,
    ;
}

/// The signed field value lies between `smin` and `smax`.
proof fn lemma_sfield_in_range(word: u64, width: u64, lsb: u64)
    requires
        1 <= width <= 63,
        width + lsb <= 64,
    ensures
        smin(width) <= sfield(word, width, lsb) <= smax(width),
{
    lemma_ufield_in_range(word, width, lsb);
    assert(1u64 << width == 2 * (1u64 << ((width - 1) as u64))) by (bit_vector)
        requires
            1 <= width <= 63,
    ;
}

/// Half of the field range, `2^(width-1)`, never exceeds `2^62`.
proof fn lemma_half_bound(width: u64)
    requires
        1 <= width <= 63,
    ensures
        1u64 << ((width - 1) as u64) <= 0x4000_0000_0000_0000u64,
        (1u64 << ((width - 1) as u64)) as int == -smin(width),
        1u64 << width == 2 * (1u64 << ((width - 1) as u64)),
{
    assert(1u64 << ((width - 1) as u64) <= 0x4000_0000_0000_0000u64 && 1u64 << width == 2 * (1u64
        << ((width - 1) as u64))) by (bit_vector)
        requires
            1 <= width <= 63,
    ;
}

/// A negative value's two's-complement bit pattern fits the field.
proof fn lemma_sbits_fit(value: i64, width: u64)
    requires
        1 <= width <= 63,
        smin(width) <= value < 0,
    ensures
        sbits(value, width) == ((1u64 << width) - ((-value) as u64)) as u64,
        sbits(value, width) < (1u64 << width),
{
    lemma_half_bound(width);
}

/// Packing an unsigned value into a field and extracting that field
/// returns the value unchanged, whatever the word held before.
pub proof fn lemma_unsigned_round_trip(word: u64, width: u64, lsb: u64, value: u64)
    requires
        1 <= width <= 63,
        width + lsb <= 64,
        value < (1u64 << width),
    ensures
        ufield(set_ufield(word, width, lsb, value), width, lsb) == value,
{
    assert((((word & !((((1u64 << width) - 1) as u64) << lsb)) | (value << lsb)) >> lsb) & (((1u64
        << width) - 1) as u64) == value) by (bit_vector)
        requires
            1 <= width <= 63,
            width + lsb <= 64,
            value < (1u64 << width),
    ;
}

/// Packing a field leaves every other field of the word unchanged:
/// a field disjoint from the packed one extracts as before.
pub proof fn lemma_field_preserved(
    word: u64,
    width: u64,
    lsb: u64,
    value: u64,
    width2: u64,
    lsb2: u64,
)
    requires
        1 <= width <= 63,
        width + lsb <= 64,
        1 <= width2 <= 63,
        width2 + lsb2 <= 64,
        lsb2 + width2 <= lsb || lsb + width <= lsb2,
        value < (1u64 << width),
    ensures
        ufield(set_ufield(word, width, lsb, value), width2, lsb2) == ufield(word, width2, lsb2),
{
    assert((((word & !((((1u64 << width) - 1) as u64) << lsb)) | (value << lsb)) >> lsb2) & (((1u64
        << width2) - 1) as u64) == (word >> lsb2) & (((1u64 << width2) - 1) as u64)) by (bit_vector)
        requires
            1 <= width <= 63,
            width + lsb <= 64,
            1 <= width2 <= 63,
            width2 + lsb2 <= 64,
            lsb2 + width2 <= lsb || lsb + width <= lsb2,
            value < (1u64 << width),
    ;
}

/// Packing a signed value into a field and extracting that field as a
/// signed field returns the value unchanged.
pub proof fn lemma_signed_round_trip(word: u64, width: u64, lsb: u64, value: i64)
    requires
        1 <= width <= 63,
        width + lsb <= 64,
        smin(width) <= value <= smax(width),
    ensures
        sfield(set_ufield(word, width, lsb, sbits(value, width)), width, lsb) == value,
{
    lemma_half_bound(width);
    if value >= 0 {
        lemma_unsigned_round_trip(word, width, lsb, value as u64);
    } else {
        lemma_sbits_fit(value, width);
        lemma_unsigned_round_trip(word, width, lsb, sbits(value, width));
    }
}

} // verus!
