//! Background-polarity classification: sample the border ring (top row,
//! bottom row, left and right columns, corners counted once), average the
//! luma over the ring with integer division, and call the image
//! light-background exactly when that mean is strictly greater than 127.

use vstd::prelude::*;
use crate::pixel::Rgba;
use crate::grid::Grid;

verus! {

/// Sum of the lumas of the first `n` pixels of row `y`.
pub open spec fn row_luma_sum(g: Grid<Rgba>, y: int, n: int) -> int
    decreases n,
{
    if n <= 0 {
        0
    } else {
        row_luma_sum(g, y, n - 1) + g.cell(n - 1, y).spec_luma()
    }
}

/// Sum of the lumas of the `n` pixels of column `x` starting at row
/// `y_from`.
pub open spec fn col_luma_sum(g: Grid<Rgba>, x: int, y_from: int, n: int) -> int
    decreases n,
{
    if n <= 0 {
        0
    } else {
        col_luma_sum(g, x, y_from, n - 1) + g.cell(x, y_from + n - 1).spec_luma()
    }
}

/// Luma sum over the border ring, each border pixel counted once: the whole
/// top row, the whole bottom row when there is more than one row, and the
/// interior parts of the left and right columns.
pub open spec fn ring_luma_sum(g: Grid<Rgba>) -> int {
    row_luma_sum(g, 0, g.width as int) + (if g.height > 1 {
        row_luma_sum(g, g.height - 1, g.width as int)
    } else {
        0
    }) + (if g.height > 2 {
        col_luma_sum(g, 0, 1, g.height - 2) + (if g.width > 1 {
            col_luma_sum(g, (g.width - 1) as int, 1, g.height - 2)
        } else {
            0
        })
    } else {
        0
    })
}

/// Number of pixels in the border ring, each counted once.
pub open spec fn ring_count(g: Grid<Rgba>) -> int {
    g.width as int + (if g.height > 1 {
        g.width as int
    } else {
        0
    }) + (if g.height > 2 {
        (g.height - 2) + (if g.width > 1 {
            g.height - 2
        } else {
            0
        })
    } else {
        0
    })
}

/// The image counts as light-background exactly when the mean ring luma,
/// taken with integer division, is strictly greater than 127.
pub open spec fn spec_is_light(g: Grid<Rgba>) -> bool {
    ring_luma_sum(g) / ring_count(g) > 127
}

/// Decides the background polarity of an image from its border ring.
pub fn is_white_background(img: &Grid<Rgba>) -> (light: bool)
    requires
        img.wf(),
        img.width >= 1,
        img.height >= 1,
    ensures
        light == spec_is_light(*img),
{
    let w: usize = img.width;
    let h: usize = img.height;
    let mut sum: u128 = 0;

    let mut x: usize = 0;
    while x < w
        invariant
            x <= w,
            sum == row_luma_sum(*img, 0, x as int),
            sum <= 255 * (x as int),
        decreases w - x,
    {
        sum = sum + (img.get(x, 0).luma() as u128);
        x = x + 1;
    }

    if h > 1 {
        let mut x: usize = 0;
        let mut bottom: u128 = 0;
        while x < w
            invariant
                x <= w,
                bottom == row_luma_sum(*img, h - 1, x as int),
                bottom <= 255 * (x as int),
            decreases w - x,
        {
            bottom = bottom + (img.get(x, h - 1).luma() as u128);
            x = x + 1;
        }
        sum = sum + bottom;
    }

    if h > 2 {
        let mut y: usize = 1;
        let mut left: u128 = 0;
        while y < h - 1
            invariant
                1 <= y <= h - 1,
                left == col_luma_sum(*img, 0, 1, y - 1),
                left <= 255 * (y as int),
            decreases h - 1 - y,
        {
            left = left + (img.get(0, y).luma() as u128);
            y = y + 1;
        }
        sum = sum + left;

        if w > 1 {
            let mut y: usize = 1;
            let mut right: u128 = 0;
            while y < h - 1
                invariant
                    1 <= y <= h - 1,
                    right == col_luma_sum(*img, (w - 1) as int, 1, y - 1),
                    right <= 255 * (y as int),
                decreases h - 1 - y,
            {
                right = right + (img.get(w - 1, y).luma() as u128);
                y = y + 1;
            }
            sum = sum + right;
        }
    }

    let count: u128 = ring_count_exec(img);
    proof {
        assert(sum == ring_luma_sum(*img));
        assert(count == ring_count(*img));
    }
    sum / count > 127
}

fn ring_count_exec(img: &Grid<Rgba>) -> (count: u128)
    requires
        img.wf(),
        img.width >= 1,
        img.height >= 1,
    ensures
        count == ring_count(*img),
        count >= 1,
{
    let w: u128 = img.width as u128;
    let h: u128 = img.height as u128;
    let mut count: u128 = w;
    if img.height > 1 {
        count = count + w;
    }
    if img.height > 2 {
        count = count + (h - 2);
        if img.width > 1 {
            count = count + (h - 2);
        }
    }
    count
}

} // verus!
