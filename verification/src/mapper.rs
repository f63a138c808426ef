//! The color mapper: the shared policy that turns a binary decision into
//! output samples for each color mode. Grayscale writes black or white into
//! one channel; colored applies the same black-or-white choice per channel;
//! duotone substitutes two caller-chosen colors for the two levels.

use vstd::prelude::*;

verus! {

/// The grayscale (and per-channel) sample for a decision: white for a bright
/// decision, black for a dark one.
pub open spec fn bw_sample(bit: bool) -> u8 {
    if bit {
        255u8
    } else {
        0u8
    }
}

/// Maps one binary decision to a black-or-white sample.
pub fn map_gray(bit: bool) -> (r: u8)
    ensures
        r == bw_sample(bit),
{
    if bit {
        255
    } else {
        0
    }
}

/// The duotone sample for channel `c` of a decision: the matching channel of
/// the high color for a bright decision, of the low color for a dark one.
pub open spec fn duotone_sample(bit: bool, low: [u8; 3], high: [u8; 3], c: int) -> u8 {
    if bit {
        high@[c]
    } else {
        low@[c]
    }
}

/// Maps one binary decision to the duotone output color.
pub fn map_duotone(bit: bool, low: &[u8; 3], high: &[u8; 3]) -> (r: [u8; 3])
    ensures
        forall|c: int| 0 <= c < 3 ==> r@[c] == duotone_sample(bit, *low, *high, c),
{
    if bit {
        *high
    } else {
        *low
    }
}

/// With black as the low color and white as the high color, the duotone
/// mapping reproduces the grayscale sample on every channel: duotone output
/// is the grayscale decision, only re-colored.
pub proof fn lemma_duotone_black_white(bit: bool, low: [u8; 3], high: [u8; 3], c: int)
    requires
        0 <= c < 3,
        low@[c] == 0,
        high@[c] == 255,
    ensures
        duotone_sample(bit, low, high, c) == bw_sample(bit),
{
}

} // verus!
