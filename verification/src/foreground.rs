//! Per-pixel content tests and the mask/filter stages built from them.
//!
//! A `ContentRule` says which pixels count as content: either a brightness
//! test against an intensity margin under a known background polarity, or an
//! exact-color test against a background reference color.  The channel sum
//! counts each of the three color channels once.

use vstd::prelude::*;
use crate::pixel::Rgba;
use crate::grid::Grid;

verus! {

/// Classifies a pixel as content or background.
#[derive(Clone, Copy)]
pub enum ContentRule {
    /// Content when the channel sum is far enough from the background
    /// extreme: on a light background, `R + G + B < 765 - margin`; on a
    /// dark background, `R + G + B > margin`.
    Brightness { light_background: bool, margin: u16 },
    /// Content when the pixel differs from the background color in any
    /// channel.
    DiffersFrom { background: Rgba },
}

/// What a `ContentRule` means, pixel by pixel.
pub open spec fn spec_is_content(rule: ContentRule, p: Rgba) -> bool {
    match rule {
        ContentRule::Brightness { light_background, margin } => {
            if light_background {
                p.spec_channel_sum() < 765 - margin
            } else {
                p.spec_channel_sum() > margin
            }
        },
        ContentRule::DiffersFrom { background } => p != background,
    }
}

/// Evaluates a content rule on one pixel.
pub fn is_content(rule: &ContentRule, p: Rgba) -> (content: bool)
    ensures
        content == spec_is_content(*rule, p),
{
    match rule {
        ContentRule::Brightness { light_background, margin } => {
            let sum: u32 = p.channel_sum() as u32;
            if *light_background {
                sum + (*margin as u32) < 765
            } else {
                sum > (*margin as u32)
            }
        },
        ContentRule::DiffersFrom { background } => {
            !(p == *background)
        },
    }
}

/// Builds a binary mask from an image: cells of content pixels get
/// `mask_bit`, all others `non_mask_bit`.
pub fn rgba_to_mask(src: &Grid<Rgba>, mask_bit: u8, non_mask_bit: u8, rule: &ContentRule) -> (mask:
    Grid<u8>)
    requires
        src.wf(),
    ensures
        mask.wf(),
        mask.same_dims(*src),
        forall|i: int|
            0 <= i < mask.cells.len() ==> mask.cells[i] == (if spec_is_content(
                *rule,
                src.cells[i],
            ) {
                mask_bit
            } else {
                non_mask_bit
            }),
{
    let mut cells: Vec<u8> = Vec::new();
    let mut i: usize = 0;
    let n: usize = src.cells.len();
    while i < n
        invariant
            i <= n,
            cells.len() == i,
            forall|j: int|
                0 <= j < i ==> cells[j] == (if spec_is_content(*rule, src.cells[j]) {
                    mask_bit
                } else {
                    non_mask_bit
                }),
        decreases n - i,
    {
        let p = src.cells[i];
        if is_content(rule, p) {
            cells.push(mask_bit);
        } else {
            cells.push(non_mask_bit);
        }
        i = i + 1;
    }
    Grid { width: src.width, height: src.height, cells }
}

/// Keeps content pixels and replaces every other pixel with `filler`.
pub fn filter_pixels(img: &Grid<Rgba>, filler: Rgba, rule: &ContentRule) -> (out: Grid<Rgba>)
    requires
        img.wf(),
    ensures
        out.wf(),
        out.same_dims(*img),
        forall|i: int|
            0 <= i < out.cells.len() ==> out.cells[i] == (if spec_is_content(
                *rule,
                img.cells[i],
            ) {
                img.cells[i]
            } else {
                filler
            }),
{
    let mut cells: Vec<Rgba> = Vec::new();
    let mut i: usize = 0;
    let n: usize = img.cells.len();
    while i < n
        invariant
            i <= n,
            cells.len() == i,
            forall|j: int|
                0 <= j < i ==> cells[j] == (if spec_is_content(*rule, img.cells[j]) {
                    img.cells[j]
                } else {
                    filler
                }),
        decreases n - i,
    {
        let p = img.cells[i];
        if is_content(rule, p) {
            cells.push(p);
        } else {
            cells.push(filler);
        }
        i = i + 1;
    }
    Grid { width: img.width, height: img.height, cells }
}

/// A pixel with each color channel flipped to its complement; alpha kept.
pub open spec fn spec_invert(p: Rgba) -> Rgba {
    Rgba { r: (255 - p.r) as u8, g: (255 - p.g) as u8, b: (255 - p.b) as u8, a: p.a }
}

/// Inverts every pixel's color channels, leaving alpha untouched.
pub fn invert_colors(img: &Grid<Rgba>) -> (out: Grid<Rgba>)
    requires
        img.wf(),
    ensures
        out.wf(),
        out.same_dims(*img),
        forall|i: int| 0 <= i < out.cells.len() ==> out.cells[i] == spec_invert(img.cells[i]),
{
    let mut cells: Vec<Rgba> = Vec::new();
    let mut i: usize = 0;
    let n: usize = img.cells.len();
    while i < n
        invariant
            i <= n,
            cells.len() == i,
            forall|j: int| 0 <= j < i ==> cells[j] == spec_invert(img.cells[j]),
        decreases n - i,
    {
        let p = img.cells[i];
        cells.push(Rgba { r: 255 - p.r, g: 255 - p.g, b: 255 - p.b, a: p.a });
        i = i + 1;
    }
    Grid { width: img.width, height: img.height, cells }
}

} // verus!
