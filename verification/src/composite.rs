//! Mask compositing: merge a binary mask with a base image, replacing every
//! pixel whose mask cell equals the active bit with a fill color.  A mask
//! whose dimensions differ from the source is a contract violation reported
//! as `DimensionMismatch`, never silently resized.

use vstd::prelude::*;
use crate::pixel::Rgba;
use crate::grid::Grid;
use crate::error::PipelineError;

verus! {

/// The composited cell sequence: `fill` where the mask is active, the
/// source cell everywhere else.
pub open spec fn composite_spec(src: Seq<Rgba>, mask: Seq<u8>, active_bit: u8, fill: Rgba) -> Seq<
    Rgba,
> {
    Seq::new(
        src.len(),
        |i: int|
            if mask[i] == active_bit {
                fill
            } else {
                src[i]
            },
    )
}

/// Compositing with a mask that is nowhere active returns the source
/// cells unchanged.
pub proof fn lemma_composite_all_inactive(src: Seq<Rgba>, mask: Seq<u8>, active_bit: u8, fill: Rgba)
    requires
        mask.len() == src.len(),
        forall|i: int| 0 <= i < mask.len() ==> mask[i] != active_bit,
    ensures
        composite_spec(src, mask, active_bit, fill) == src,
{
    assert(composite_spec(src, mask, active_bit, fill) =~= src);
}

/// Compositing with a mask that is everywhere active returns a uniform
/// image of the fill color.
pub proof fn lemma_composite_all_active(src: Seq<Rgba>, mask: Seq<u8>, active_bit: u8, fill: Rgba)
    requires
        mask.len() == src.len(),
        forall|i: int| 0 <= i < mask.len() ==> mask[i] == active_bit,
    ensures
        composite_spec(src, mask, active_bit, fill) == Seq::new(src.len(), |i: int| fill),
{
    assert(composite_spec(src, mask, active_bit, fill) =~= Seq::new(src.len(), |i: int| fill));
}

/// Fills `source` with `fill` wherever `mask` holds `filler_mask_bit`, and
/// copies every other pixel unchanged.  Fails with `DimensionMismatch`
/// exactly when the two buffers differ in dimensions.
pub fn mask_and_fill(source: &Grid<Rgba>, mask: &Grid<u8>, filler_mask_bit: u8, fill: Rgba) -> (out:
    Result<Grid<Rgba>, PipelineError>)
    requires
        source.wf(),
        mask.wf(),
    ensures
        source.same_dims(*mask) ==> (out matches Ok(filled) && filled.wf() && filled.same_dims(
            *source,
        ) && filled.cells@ == composite_spec(
            source.cells@,
            mask.cells@,
            filler_mask_bit,
            fill,
        )),
        !source.same_dims(*mask) ==> out == Err::<Grid<Rgba>, PipelineError>(
            PipelineError::DimensionMismatch,
        ),
{
    if !(source.width == mask.width && source.height == mask.height) {
        return Err(PipelineError::DimensionMismatch);
    }
    let mut cells: Vec<Rgba> = Vec::new();
    let mut i: usize = 0;
    let n: usize = source.cells.len();
    while i < n
        invariant
            i <= n,
            cells.len() == i,
            forall|j: int|
                0 <= j < i ==> cells[j] == (if mask.cells[j] == filler_mask_bit {
                    fill
                } else {
                    source.cells[j]
                }),
        decreases n - i,
    {
        if mask.cells[i] == filler_mask_bit {
            cells.push(fill);
        } else {
            cells.push(source.cells[i]);
        }
        i = i + 1;
    }
    let filled = Grid { width: source.width, height: source.height, cells };
    proof {
        assert(filled.cells@ =~= composite_spec(source.cells@, mask.cells@, filler_mask_bit, fill));
    }
    Ok(filled)
}

} // verus!
