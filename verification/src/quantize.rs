//! Requantisation of smoothed samples into duty values and duty words.

use vstd::prelude::*;

verus! {

/// The level of an unsigned 8-bit sample that stands for silence.
pub const CENTER: u8 = 128;

/// Bit 15 of a duty word: the polarity flag of the pulse output.
pub const POLARITY: u16 = 0x8000;

/// A zero-centred whole-number sample, moved back to the unsigned range and
/// saturated at its ends.
pub open spec fn requantized(filtered: int) -> int {
    if filtered + CENTER < 0 {
        0
    } else if filtered + CENTER > 255 {
        255
    } else {
        filtered + CENTER
    }
}

/// Whatever comes in, what goes out lies in the unsigned 8-bit range: at its
/// ends from where the input leaves it, and the input moved up by the centre
/// in between.
pub proof fn lemma_requantized_in_range(filtered: int)
    ensures
        0 <= requantized(filtered) <= 255,
        filtered <= -128 ==> requantized(filtered) == 0,
        filtered >= 127 ==> requantized(filtered) == 255,
        -128 <= filtered <= 127 ==> requantized(filtered) == filtered + 128,
{
}

/// Moves a zero-centred sample back to the unsigned 8-bit range, saturating
/// what falls outside it.
pub fn requantize(filtered: i32) -> (duty: u8)
    ensures
        duty == requantized(filtered as int),
{
    if filtered < -128 {
        0
    } else if filtered > 127 {
        255
    } else {
        (filtered + 128) as u8
    }
}

/// The duty word of a duty value: the value in the low byte, the polarity
/// flag set, nothing else.
pub open spec fn duty_word_of(duty: int) -> int {
    0x8000 + duty
}

/// Encodes a duty value as the 16-bit word that the pulse output reads.
pub fn duty_word(duty: u8) -> (word: u16)
    ensures
        word == duty_word_of(duty as int),
        word & POLARITY == POLARITY,
        word & 0x7fff == duty,
{
    let low: u16 = duty as u16;
    assert(low <= 0xff ==> (0x8000u16 | low) == 0x8000u16 + low && (0x8000u16 | low) & 0x8000u16
        == 0x8000u16 && (0x8000u16 | low) & 0x7fffu16 == low) by (bit_vector);
    POLARITY | low
}

} // verus!
