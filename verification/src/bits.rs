//! Fixed-width integer facts: two's complement readings, bit fields and sign extension.
use vstd::prelude::*;

verus! {

/// Two's complement reading of a 32-bit word.
pub open spec fn signed(x: u32) -> int {
    if x < 0x8000_0000 {
        x as int
    } else {
        x - 0x1_0000_0000
    }
}

/// The 32-bit word congruent to `v` modulo `2^32`.
pub open spec fn wrap32(v: int) -> u32 {
    (v % 0x1_0000_0000) as u32
}

/// The bit field of `word` that starts at the bit of weight `low` and holds values below `span`.
pub open spec fn bit_field(word: u32, low: int, span: int) -> int {
    (word as int / low) % span
}

/// Sign extension of a field whose values lie below `span` (a power of two) to 32 bits.
pub open spec fn sign_extended(field: int, span: int) -> u32 {
    if field < span / 2 {
        field as u32
    } else {
        (field + 0x1_0000_0000 - span) as u32
    }
}

/// `x as i32` is the two's complement reading, and casting back restores the word.
pub proof fn lemma_as_i32(x: u32)
    ensures
        x as i32 == signed(x),
        (x as i32) as u32 == x,
{
    assert((x < 0x8000_0000u32 ==> (x as i32) as int == x as int) && (x >= 0x8000_0000u32 ==> (
    x as i32) as int == x - 0x1_0000_0000) && (x as i32) as u32 == x) by (bit_vector);
}

/// Masks and shifts that cut an instruction word into its fields are divisions and remainders.
pub proof fn lemma_instruction_fields(w: u32)
    ensures
        w & 0x7f == bit_field(w, 1, 0x80),
        (w >> 7) & 0x1f == bit_field(w, 0x80, 0x20),
        (w >> 7) & 0x1 == bit_field(w, 0x80, 0x2),
        (w >> 8) & 0xf == bit_field(w, 0x100, 0x10),
        (w >> 12) & 0x7 == bit_field(w, 0x1000, 0x8),
        (w >> 12) & 0xff == bit_field(w, 0x1000, 0x100),
        (w >> 15) & 0x1f == bit_field(w, 0x8000, 0x20),
        (w >> 20) & 0x1f == bit_field(w, 0x10_0000, 0x20),
        (w >> 20) & 0x1 == bit_field(w, 0x10_0000, 0x2),
        (w >> 21) & 0x3ff == bit_field(w, 0x20_0000, 0x400),
        w >> 20 == bit_field(w, 0x10_0000, 0x1000),
        (w >> 25) & 0x3f == bit_field(w, 0x200_0000, 0x40),
        w >> 25 == bit_field(w, 0x200_0000, 0x80),
        w >> 31 == bit_field(w, 0x8000_0000, 0x2),
        w >> 12 == bit_field(w, 0x1000, 0x10_0000),
{
    assert(w & 0x7f == w % 0x80 && (w >> 7) & 0x1f == (w / 0x80) % 0x20 && (w >> 7) & 0x1 == (w
        / 0x80) % 0x2 && (w >> 8) & 0xf == (w / 0x100) % 0x10 && (w >> 12) & 0x7 == (w / 0x1000)
        % 0x8 && (w >> 12) & 0xff == (w / 0x1000) % 0x100 && (w >> 15) & 0x1f == (w / 0x8000) % 0x20
        && (w >> 20) & 0x1f == (w / 0x10_0000) % 0x20 && (w >> 20) & 0x1 == (w / 0x10_0000) % 0x2
        && (w >> 21) & 0x3ff == (w / 0x20_0000) % 0x400 && w >> 20 == w / 0x10_0000 && (w >> 25)
        & 0x3f == (w / 0x200_0000) % 0x40 && w >> 25 == w / 0x200_0000 && w >> 31 == w
        / 0x8000_0000 && w >> 12 == w / 0x1000) by (bit_vector);
}

/// Extends the sign bit, at position `width - 1`, of a `width`-bit value over the whole word.
pub fn sign_extend(dst: &mut u32, width: u32)
    requires
        0 < width < 32,
        *old(dst) < (1u32 << width),
    ensures
        *final(dst) == sign_extended(*old(dst) as int, (1u32 << width) as int),
{
    let x = *dst;
    let shift: u32 = 32 - width;
    proof {
        assert((((x << shift) as i32) >> shift) as u32 == if x < (1u32 << width) / 2 {
            x
        } else {
            (x + 0x1_0000_0000 - (1u32 << width)) as u32
        }) by (bit_vector)
            requires
                0 < width < 32,
                shift == 32 - width,
                x < (1u32 << width),
        ;
    }
    *dst = (((x << shift) as i32) >> shift) as u32;
}

/// Sign extension of the low byte.
pub fn sign_extend_8(x: u32) -> (r: u32)
    ensures
        r == sign_extended(x as int % 0x100, 0x100),
{
    proof {
        assert(((x as u8) as i8) as i32 as u32 == if x % 0x100 < 0x80 {
            x % 0x100
        } else {
            (x % 0x100 + 0x1_0000_0000 - 0x100) as u32
        }) by (bit_vector);
    }
    ((x as u8) as i8) as i32 as u32
}

/// Sign extension of the low half-word.
pub fn sign_extend_16(x: u32) -> (r: u32)
    ensures
        r == sign_extended(x as int % 0x1_0000, 0x1_0000),
{
    proof {
        assert(((x as u16) as i16) as i32 as u32 == if x % 0x1_0000 < 0x8000 {
            x % 0x1_0000
        } else {
            (x % 0x1_0000 + 0x1_0000_0000 - 0x1_0000) as u32
        }) by (bit_vector);
    }
    ((x as u16) as i16) as i32 as u32
}

/// Zero extension of the low byte.
pub fn zero_extend_8(x: u32) -> (r: u32)
    ensures
        r == x % 0x100,
{
    x % 0x100
}

/// Zero extension of the low half-word.
pub fn zero_extend_16(x: u32) -> (r: u32)
    ensures
        r == x % 0x1_0000,
{
    x % 0x1_0000
}

/// The readings of a word: the signed one is the number of the word modulo `2^32` that lies between
/// `-2^31` and `2^31`, and the word of a number is the one that differs from it by a multiple of
/// `2^32`.
pub proof fn law_readings_of_words(x: u32, v: int)
    ensures
        -0x8000_0000 <= signed(x) < 0x8000_0000,
        (signed(x) - x) % 0x1_0000_0000 == 0,
        (wrap32(v) - v) % 0x1_0000_0000 == 0,
        wrap32(signed(x)) == x,
{
}

/// A field of a word is what its bits weigh: what lies below it and above it is left out.
pub proof fn law_bits_of_a_field(below: int, value: int, above: int, low: int, span: int)
    requires
        0 < low,
        0 < span,
        0 <= below < low,
        0 <= value < span,
        0 <= above,
        below + low * value + low * span * above <= u32::MAX,
    ensures
        bit_field((below + low * value + low * span * above) as u32, low, span) == value,
{
    let word = below + low * value + low * span * above;
    let rest = value + span * above;
    assert(0 <= low * value && 0 <= low * span * above && word == rest * low + below && rest
        == above * span + value)
        by (nonlinear_arith)
        requires
            word == below + low * value + low * span * above,
            rest == value + span * above,
            0 < low,
            0 < span,
            0 <= value,
            0 <= above,
    ;
    vstd::arithmetic::div_mod::lemma_fundamental_div_mod_converse(word, low, rest, below);
    vstd::arithmetic::div_mod::lemma_fundamental_div_mod_converse(rest, span, above, value);
}

/// A field that is sign-extended keeps its bits, and reads as a number between minus one half and
/// one half of its span.
pub proof fn law_sign_extension(field: int, bits: nat)
    requires
        0 < bits <= 32,
        0 <= field < vstd::arithmetic::power2::pow2(bits),
    ensures
        ({
            let span = vstd::arithmetic::power2::pow2(bits) as int;
            let r = signed(sign_extended(field, span));
            &&& -span <= 2 * r < span
            &&& r == field || r == field - span
        }),
{
    vstd::arithmetic::power2::lemma2_to64();
    vstd::arithmetic::power2::lemma_pow2_unfold(bits);
    if bits < 32 {
        vstd::arithmetic::power2::lemma_pow2_strictly_increases(bits, 32);
    }
}

} // verus!
