//! Audio effects and the rules that decide which settings a DSP chain
//! accepts. Every number is the IEEE-754 bit pattern of an `f64`; the
//! comparisons below are the floating-point comparisons the rules make,
//! written over bit patterns (for values of the same sign, finite or
//! infinite, the order of the patterns is the order of the magnitudes; a
//! NaN compares false with everything).

use vstd::prelude::*;

use crate::app_state::{invalid, message, AppError};
use crate::text::string_from_str;

verus! {

/// The sign bit of an `f64`.
pub open spec fn sign_bit() -> u64 {
    0x8000_0000_0000_0000
}

/// The pattern of `+inf`.
pub open spec fn pos_infinity() -> u64 {
    0x7FF0_0000_0000_0000
}

/// `x >= lo && x <= hi`, for the `f64` `x` with pattern `bits`, where `lo`
/// and `hi` are the patterns of finite values with `+0 <= lo <= hi`.
/// `-0.0` counts as `>= 0.0`; a NaN is in no range.
pub open spec fn f64_in_range(bits: u64, lo: u64, hi: u64) -> bool {
    if bits == sign_bit() {
        lo == 0
    } else {
        bits < sign_bit() && lo <= bits && bits <= hi
    }
}

/// `x.abs() > 12.0`, for the `f64` `x` with pattern `bits` (false for a
/// NaN). `0x4028_0000_0000_0000` is the pattern of `12.0`.
pub open spec fn gain_out_of_range(bits: u64) -> bool {
    let m = bits % sign_bit();
    0x4028_0000_0000_0000 < m && m <= pos_infinity()
}

/// An effect of the DSP chain; each number is an `f64` bit pattern.
pub enum Effect {
    /// A delay of so many seconds.
    Delay(u64),
    /// Reverb, with the wet share of the mix.
    Reverb(u64),
    /// Chorus, with its modulation rate in Hz.
    Chorus(u64),
    /// Three-band equaliser gains in dB.
    Eq { bass: u64, mid: u64, treble: u64 },
    /// No effect.
    NoEffect,
}

/// Patterns of the range bounds: `2.0`, `1.0`, `0.1` and `10.0`.
pub open spec fn two() -> u64 { 0x4000_0000_0000_0000 }
pub open spec fn one() -> u64 { 0x3FF0_0000_0000_0000 }
pub open spec fn one_tenth() -> u64 { 0x3FB9_9999_9999_999A }
pub open spec fn ten() -> u64 { 0x4024_0000_0000_0000 }

/// Whether a DSP chain accepts `e`: a delay of 0 to 2 s, a reverb mix of
/// 0 to 1, a chorus rate of 0.1 to 10 Hz, equaliser gains of at most
/// 12 dB either way; never `NoEffect`.
pub open spec fn effect_accepted(e: Effect) -> bool {
    match e {
        Effect::Delay(t) => f64_in_range(t, 0, two()),
        Effect::Reverb(m) => f64_in_range(m, 0, one()),
        Effect::Chorus(r) => f64_in_range(r, one_tenth(), ten()),
        Effect::Eq { bass, mid, treble } => !gain_out_of_range(bass) && !gain_out_of_range(mid)
            && !gain_out_of_range(treble),
        Effect::NoEffect => false,
    }
}

/// `x >= lo && x <= hi` as `f64_in_range` states it.
pub fn in_range(bits: u64, lo: u64, hi: u64) -> (res: bool)
    ensures
        res == f64_in_range(bits, lo, hi),
{
    if bits == 0x8000_0000_0000_0000 {
        lo == 0
    } else {
        bits < 0x8000_0000_0000_0000 && lo <= bits && bits <= hi
    }
}

/// `x.abs() > 12.0` as `gain_out_of_range` states it.
pub fn gain_too_large(bits: u64) -> (res: bool)
    ensures
        res == gain_out_of_range(bits),
{
    let m = bits % 0x8000_0000_0000_0000;
    0x4028_0000_0000_0000 < m && m <= 0x7FF0_0000_0000_0000
}

/// Whether the equaliser gains are all within 12 dB either way.
pub fn gains_accepted(bass: u64, mid: u64, treble: u64) -> (res: bool)
    ensures
        res == (!gain_out_of_range(bass) && !gain_out_of_range(mid) && !gain_out_of_range(treble)),
{
    !gain_too_large(bass) && !gain_too_large(mid) && !gain_too_large(treble)
}

/// Whether a DSP chain accepts `e`.
pub fn is_accepted(e: &Effect) -> (res: bool)
    ensures
        res == effect_accepted(*e),
{
    match e {
        Effect::Delay(t) => in_range(*t, 0, 0x4000_0000_0000_0000),
        Effect::Reverb(m) => in_range(*m, 0, 0x3FF0_0000_0000_0000),
        Effect::Chorus(r) => in_range(*r, 0x3FB9_9999_9999_999A, 0x4024_0000_0000_0000),
        Effect::Eq { bass, mid, treble } => gains_accepted(*bass, *mid, *treble),
        Effect::NoEffect => false,
    }
}

/// What refusing `e` says.
pub open spec fn rejection_message(e: Effect) -> Seq<char> {
    match e {
        Effect::Eq { .. } => "EQ gains must be between -12dB and +12dB"@,
        _ => "Invalid effect parameters"@,
    }
}

/// Checks the effects of a DSP chain in order: the first one not
/// accepted is refused, with a message about the gains for an equaliser
/// and about the parameters otherwise.
pub fn check_effects(effects: &Vec<Effect>) -> (res: Result<(), AppError>)
    ensures
        res is Ok <==> forall|i: int| 0 <= i < effects@.len() ==> effect_accepted(#[trigger] effects@[i]),
        res matches Err(e) ==> exists|i: int|
            0 <= i < effects@.len() && !effect_accepted(#[trigger] effects@[i]) && (forall|j: int|
                0 <= j < i ==> effect_accepted(#[trigger] effects@[j])) && invalid(
                e,
                rejection_message(effects@[i]),
            ),
{
    let mut i: usize = 0;
    while i < effects.len()
        invariant
            i <= effects@.len(),
            forall|j: int| 0 <= j < i ==> effect_accepted(#[trigger] effects@[j]),
        decreases effects@.len() - i,
    {
        if !is_accepted(&effects[i]) {
            let msg = match &effects[i] {
                Effect::Eq { .. } => "EQ gains must be between -12dB and +12dB",
                _ => "Invalid effect parameters",
            };
            return Err(AppError::InvalidInput(string_from_str(msg)));
        }
        i = i + 1;
    }
    Ok(())
}

/// Checks that a DSP chain is handed an output buffer as long as its
/// input; refused where the lengths differ.
pub fn check_buffers(input_len: usize, output_len: usize) -> (res: Result<(), AppError>)
    ensures
        res is Ok <==> input_len == output_len,
        res matches Err(e) ==> e is DSPError && message(e) == "Input and output buffer sizes mismatch"@,
{
    if input_len != output_len {
        return Err(AppError::DSPError(string_from_str("Input and output buffer sizes mismatch")));
    }
    Ok(())
}

/// The ranges a DSP chain accepts, on the bit patterns of the numbers.
/// Non-negative doubles are ordered as their patterns, so `[+0, hi]` is
/// the patterns `0..=hi` together with `-0.0` (`0x8000_0000_0000_0000`).
/// A delay is accepted from 0 to 2 s (`2.0` is `0x4000_0000_0000_0000`),
/// a reverb mix from 0 to 1 (`1.0` is `0x3FF0_0000_0000_0000`), a chorus
/// rate from 0.1 to 10 Hz, an equaliser gain whose magnitude is at most
/// 12 dB (`0x4028_0000_0000_0000`) or that is a NaN; no-effect never.
pub proof fn lemma_accepted_ranges(x: u64, bass: u64, mid: u64, treble: u64)
    ensures
        effect_accepted(Effect::Delay(x)) <==> (x == 0x8000_0000_0000_0000u64
            || x <= 0x4000_0000_0000_0000u64),
        effect_accepted(Effect::Reverb(x)) <==> (x == 0x8000_0000_0000_0000u64
            || x <= 0x3FF0_0000_0000_0000u64),
        effect_accepted(Effect::Chorus(x)) <==> (0x3FB9_9999_9999_999Au64 <= x
            && x <= 0x4024_0000_0000_0000u64),
        effect_accepted(Effect::Eq { bass, mid, treble }) <==> ((bass % 0x8000_0000_0000_0000u64
            <= 0x4028_0000_0000_0000u64 || bass % 0x8000_0000_0000_0000u64
            > 0x7FF0_0000_0000_0000u64) && (mid % 0x8000_0000_0000_0000u64
            <= 0x4028_0000_0000_0000u64 || mid % 0x8000_0000_0000_0000u64
            > 0x7FF0_0000_0000_0000u64) && (treble % 0x8000_0000_0000_0000u64
            <= 0x4028_0000_0000_0000u64 || treble % 0x8000_0000_0000_0000u64
            > 0x7FF0_0000_0000_0000u64)),
        !effect_accepted(Effect::NoEffect),
{
}

} // verus!
