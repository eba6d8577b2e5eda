//! Colour channels by iteration index.

use vstd::prelude::*;

verus! {

/// Number of colour channels of a histogram cell.
pub const CHANNELS: usize = 3;

/// The two iteration indices at which a trajectory moves on to the next
/// channel: points visited early count for channel 0, later ones for channel 1,
/// the latest for channel 2.
#[derive(Clone, Copy, Debug, PartialEq, Eq)]
pub struct Palette {
    /// First iteration that counts for channel 1.
    pub first: usize,
    /// First iteration that counts for channel 2.
    pub second: usize,
}

/// The channel that counts a point visited at iteration `i`.
pub open spec fn channel_of(i: nat, palette: Palette) -> nat {
    if i < palette.first {
        0
    } else if i < palette.second {
        1
    } else {
        2
    }
}

impl Palette {
    /// Thresholds 300 and 600.
    pub fn standard() -> (p: Palette)
        ensures
            p.first == 300,
            p.second == 600,
    {
        Palette { first: 300, second: 600 }
    }
}

/// Channel of a point visited at iteration `i`.
pub fn channel(i: usize, palette: &Palette) -> (ch: usize)
    ensures
        ch == channel_of(i as nat, *palette),
        ch < CHANNELS,
{
    if i < palette.first {
        0
    } else if i < palette.second {
        1
    } else {
        2
    }
}

} // verus!
