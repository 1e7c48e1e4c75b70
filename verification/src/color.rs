//! In-memory 8-bit-per-channel RGBA colors and their interpolation.
use vstd::prelude::*;

verus! {

/// Color type used for all in-memory colors across the crate.
#[derive(Clone, Copy, Debug, PartialEq, Eq, Structural)]
pub struct Rgba {
    pub red: u8,
    pub green: u8,
    pub blue: u8,
    pub alpha: u8,
}

impl Rgba {
    /// True when the color channels agree, ignoring alpha.
    pub open spec fn spec_same_rgb(self, other: Rgba) -> bool {
        self.red == other.red && self.green == other.green && self.blue == other.blue
    }

    pub fn new(red: u8, green: u8, blue: u8, alpha: u8) -> (c: Rgba)
        ensures
            c == (Rgba { red, green, blue, alpha }),
    {
        Rgba { red, green, blue, alpha }
    }

    /// Compares two colors on the RGB channels only, ignoring alpha.
    pub fn same_rgb(&self, other: &Rgba) -> (r: bool)
        ensures
            r == self.spec_same_rgb(*other),
    {
        self.red == other.red && self.green == other.green && self.blue == other.blue
    }

    /// The same color with a different alpha channel.
    pub fn with_alpha(&self, alpha: u8) -> (c: Rgba)
        ensures
            c == (Rgba { alpha, ..*self }),
    {
        Rgba { red: self.red, green: self.green, blue: self.blue, alpha }
    }
}

/// One interpolation step of `current` toward `target` by `factor_milli`
/// thousandths of the remaining distance, rounded toward `current`.
pub open spec fn spec_lerp_step(current: int, target: int, factor_milli: int) -> int {
    if target >= current {
        current + ((target - current) * factor_milli) / 1000
    } else {
        current - ((current - target) * factor_milli) / 1000
    }
}

/// A step never moves past the target, and never away from it: the result
/// stays between `current` and `target` for any factor up to one (1000).
pub proof fn lemma_lerp_step_bounded(current: int, target: int, factor_milli: int)
    requires
        0 <= factor_milli <= 1000,
    ensures
        current <= target ==> current <= spec_lerp_step(current, target, factor_milli) <= target,
        current >= target ==> target <= spec_lerp_step(current, target, factor_milli) <= current,
{
    let d = if target >= current {
        target - current
    } else {
        current - target
    };
    let scaled = d * factor_milli;
    assert(0 <= scaled <= d * 1000) by (nonlinear_arith)
        requires
            0 <= factor_milli <= 1000,
            d >= 0,
            scaled == d * factor_milli,
    ;
    assert(0 <= scaled / 1000 <= d) by (nonlinear_arith)
        requires
            0 <= scaled <= d * 1000,
    ;
}

/// One interpolation step of an 8-bit channel toward its target.
pub fn lerp_channel(current: u8, target: u8, factor_milli: u16) -> (r: u8)
    requires
        factor_milli <= 1000,
    ensures
        r == spec_lerp_step(current as int, target as int, factor_milli as int),
{
    proof {
        lemma_lerp_step_bounded(current as int, target as int, factor_milli as int);
    }
    if target >= current {
        let diff: u32 = target as u32 - current as u32;
        let step: u32 = (diff * factor_milli as u32) / 1000;
        current + step as u8
    } else {
        let diff: u32 = current as u32 - target as u32;
        let step: u32 = (diff * factor_milli as u32) / 1000;
        current - step as u8
    }
}

/// One interpolation step of each channel of `current` toward `target`.
pub fn lerp_color(current: Rgba, target: Rgba, factor_milli: u16) -> (r: Rgba)
    requires
        factor_milli <= 1000,
    ensures
        r == spec_lerp_color(current, target, factor_milli as int),
{
    Rgba {
        red: lerp_channel(current.red, target.red, factor_milli),
        green: lerp_channel(current.green, target.green, factor_milli),
        blue: lerp_channel(current.blue, target.blue, factor_milli),
        alpha: lerp_channel(current.alpha, target.alpha, factor_milli),
    }
}

/// One interpolation step of a whole color, channel by channel.
pub open spec fn spec_lerp_color(current: Rgba, target: Rgba, factor_milli: int) -> Rgba {
    Rgba {
        red: spec_lerp_step(current.red as int, target.red as int, factor_milli) as u8,
        green: spec_lerp_step(current.green as int, target.green as int, factor_milli) as u8,
        blue: spec_lerp_step(current.blue as int, target.blue as int, factor_milli) as u8,
        alpha: spec_lerp_step(current.alpha as int, target.alpha as int, factor_milli) as u8,
    }
}

} // verus!
