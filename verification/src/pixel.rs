//! The RGBA pixel type and the per-pixel quantities the pipeline reads:
//! luma (border-ring brightness sampling), channel sum (content tests) and
//! per-channel distance (tolerant color comparison).

use vstd::prelude::*;

verus! {

/// One RGBA pixel; all stages treat a pixel as these four plain channels.
#[derive(Clone, Copy, PartialEq, Eq, Structural, Debug)]
pub struct Rgba {
    pub r: u8,
    pub g: u8,
    pub b: u8,
    pub a: u8,
}

impl Rgba {
    /// Luma of a pixel: the BT.709-weighted brightness, truncated to an
    /// integer, used when sampling the border ring.
    pub open spec fn spec_luma(self) -> int {
        (2126 * self.r + 7152 * self.g + 722 * self.b) / 10000
    }

    /// Sum of the three color channels, each counted once; the content
    /// tests compare this sum against an intensity margin.
    pub open spec fn spec_channel_sum(self) -> int {
        self.r + self.g + self.b
    }

    pub fn luma(self) -> (l: u8)
        ensures
            l == self.spec_luma(),
    {
        let weighted: u32 = 2126 * (self.r as u32) + 7152 * (self.g as u32) + 722 * (self.b as u32);
        let q: u32 = weighted / 10000;
        proof {
            assert(q <= 255) by (nonlinear_arith)
                requires
                    weighted <= 2_550_000,
                    q == weighted / 10000,
            ;
        }
        q as u8
    }

    pub fn channel_sum(self) -> (s: u16)
        ensures
            s == self.spec_channel_sum(),
    {
        self.r as u16 + self.g as u16 + self.b as u16
    }
}

/// Absolute difference of two channel values.
pub open spec fn spec_channel_dist(x: u8, y: u8) -> int {
    if x >= y {
        x - y
    } else {
        y - x
    }
}

/// Two pixels are the same color under a tolerance when each of the three
/// color channels differs by strictly less than the tolerance; the alpha
/// channel is ignored.
pub open spec fn spec_same_rgba(a: Rgba, b: Rgba, tolerance: u8) -> bool {
    &&& spec_channel_dist(a.r, b.r) < tolerance
    &&& spec_channel_dist(a.g, b.g) < tolerance
    &&& spec_channel_dist(a.b, b.b) < tolerance
}

fn channel_dist(x: u8, y: u8) -> (d: u8)
    ensures
        d == spec_channel_dist(x, y),
{
    if x >= y {
        x - y
    } else {
        y - x
    }
}

/// Tolerant color equality on the three color channels; alpha is ignored.
pub fn same_rbga(a: &Rgba, b: &Rgba, tolerance: u8) -> (same: bool)
    ensures
        same == spec_same_rgba(*a, *b, tolerance),
{
    channel_dist(a.r, b.r) < tolerance && channel_dist(a.g, b.g) < tolerance
        && channel_dist(a.b, b.b) < tolerance
}

} // verus!
