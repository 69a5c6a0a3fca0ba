//! Brightness normalization: scale each pixel's color channels so that its
//! brightest channel reaches full intensity.  A pure black pixel is copied
//! unchanged; scaling rounds half up; alpha is never touched.

use vstd::prelude::*;
use vstd::arithmetic::div_mod::lemma_fundamental_div_mod;
use vstd::arithmetic::div_mod::lemma_multiply_divide_lt;
use vstd::arithmetic::div_mod::lemma_div_is_ordered;
use vstd::arithmetic::div_mod::lemma_div_multiples_vanish;
use crate::pixel::Rgba;
use crate::grid::Grid;

verus! {

/// The largest of the three color channels.
pub open spec fn spec_max_channel(p: Rgba) -> u8 {
    if p.r >= p.g && p.r >= p.b {
        p.r
    } else if p.g >= p.b {
        p.g
    } else {
        p.b
    }
}

/// `c` scaled by `255 / m`, rounded half up.  Used only with `m` at least
/// `c`, so the result stays within one channel.
pub open spec fn spec_scale_channel(c: u8, m: u8) -> u8 {
    ((((c as int) * 255 + (m as int) / 2) / (m as int)) as u8)
}

/// One pixel normalized: unchanged when pure black, otherwise each color
/// channel scaled so the brightest becomes 255; alpha kept.
pub open spec fn spec_normalize_pixel(p: Rgba) -> Rgba {
    let m = spec_max_channel(p);
    if m == 0 {
        p
    } else {
        Rgba {
            r: spec_scale_channel(p.r, m),
            g: spec_scale_channel(p.g, m),
            b: spec_scale_channel(p.b, m),
            a: p.a,
        }
    }
}

fn scale_channel(c: u8, m: u8) -> (s: u8)
    requires
        1 <= m,
        c <= m,
    ensures
        s == spec_scale_channel(c, m),
        c == m ==> s == 255,
{
    let half: u32 = (m as u32) / 2;
    let num: u32 = (c as u32) * 255 + half;
    let q: u32 = num / (m as u32);
    proof {
        assert(2 * (half as int) <= m as int) by {
            lemma_fundamental_div_mod(m as int, 2);
        };
        assert((num as int) < (m as int) * 256) by (nonlinear_arith)
            requires
                c <= m,
                1 <= m,
                num == (c as int) * 255 + half,
                2 * (half as int) <= m as int,
        ;
        lemma_multiply_divide_lt(num as int, m as int, 256);
        if c == m {
            lemma_div_is_ordered((m as int) * 255, num as int, m as int);
            lemma_div_multiples_vanish(255, m as int);
        }
    }
    q as u8
}

fn max_channel(p: Rgba) -> (m: u8)
    ensures
        m == spec_max_channel(p),
{
    if p.r >= p.g && p.r >= p.b {
        p.r
    } else if p.g >= p.b {
        p.g
    } else {
        p.b
    }
}

fn normalize_pixel(p: Rgba) -> (out: Rgba)
    ensures
        out == spec_normalize_pixel(p),
{
    let m = max_channel(p);
    if m == 0 {
        p
    } else {
        Rgba {
            r: scale_channel(p.r, m),
            g: scale_channel(p.g, m),
            b: scale_channel(p.b, m),
            a: p.a,
        }
    }
}

/// Rescales every pixel so its brightest color channel reaches 255,
/// leaving pure black pixels and all alpha values unchanged.
pub fn normalize_brightness(img: &Grid<Rgba>) -> (out: Grid<Rgba>)
    requires
        img.wf(),
    ensures
        out.wf(),
        out.same_dims(*img),
        forall|i: int|
            0 <= i < out.cells.len() ==> out.cells[i] == spec_normalize_pixel(img.cells[i]),
{
    let mut cells: Vec<Rgba> = Vec::new();
    let mut i: usize = 0;
    let n: usize = img.cells.len();
    while i < n
        invariant
            i <= n,
            cells.len() == i,
            forall|j: int| 0 <= j < i ==> cells[j] == spec_normalize_pixel(img.cells[j]),
        decreases n - i,
    {
        cells.push(normalize_pixel(img.cells[i]));
        i = i + 1;
    }
    Grid { width: img.width, height: img.height, cells }
}

} // verus!
