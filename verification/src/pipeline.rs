//! The pipeline orchestrator: one deterministic, side-effect-free function
//! from a raw capture, a region string and a configuration to the cleaned,
//! OCR-ready image, composing the region mapper, the crop, the background
//! classifier, the foreground predicate, the labeller, the size filter,
//! the compositor and the dominant-color extractor.  Every invocation owns
//! its buffers; nothing persists between calls.

use vstd::prelude::*;
use vstd::string::StringSliceAdditionalSpecFns;
use crate::pixel::Rgba;
use crate::grid::Grid;
use crate::grid::flat;
use crate::grid::lemma_flat_in_bounds;
use crate::error::PipelineError;
use crate::background::is_white_background;
use crate::background::spec_is_light;
use crate::foreground::ContentRule;
use crate::foreground::spec_is_content;
use crate::foreground::spec_invert;
use crate::foreground::rgba_to_mask;
use crate::foreground::invert_colors;
use crate::label::Connectivity;
use crate::label::connected_components;
use crate::label::labelling_ok;
use crate::label::adjacency_sound;
use crate::label::label_connected;
use crate::size_filter::spec_removed;
use crate::size_filter::removal_mask;
use crate::composite::mask_and_fill;
use crate::composite::composite_spec;
use crate::normalize::normalize_brightness;
use crate::normalize::spec_normalize_pixel;
use crate::dominant::most_color;
use crate::dominant::spec_most_color;
use crate::dominant::view_pairs;
use crate::region::convert_screen_region;
use crate::region::spec_parse_region;
use crate::region::spec_region_valid;
use crate::region::spec_map_coord;

verus! {

/// The mask value marking a pixel for removal.
pub const REMOVAL_BIT: u8 = 255;

/// The mask value marking a content pixel in the foreground mask.
pub const CONTENT_BIT: u8 = 255;

/// How the detected background polarity is applied.
#[derive(Clone, Copy, Debug)]
pub enum PolarityPolicy {
    /// Threshold directly under the detected polarity.
    ThresholdByPolarity,
    /// Invert the image first whenever the background is light, then
    /// always threshold as dark-background.
    InvertThenThreshold,
}

impl Default for PolarityPolicy {
    /// The policy applied when none is chosen.
    fn default() -> (r: Self)
        ensures
            r is ThresholdByPolarity,
    {
        PolarityPolicy::ThresholdByPolarity
    }
}

/// The scalar configuration surface of one pipeline run.
#[derive(Clone, Copy, Debug)]
pub struct PipelineConfig {
    pub connectivity: Connectivity,
    /// Regions strictly smaller than this are removed; 0 disables
    /// tiny-region removal.
    pub lower: usize,
    /// Regions strictly larger than this are removed.
    pub upper: usize,
    /// Intensity margin of the foreground predicate.
    pub margin: u16,
    /// Color tolerance of dominant-color extraction; must not be 0.
    pub tolerance: u8,
    /// How many dominant colors to report.
    pub color_count: usize,
    pub policy: PolarityPolicy,
    /// Whether to normalize brightness after compositing.
    pub normalize: bool,
}

/// Every stage's output of one pipeline run, the cleaned image last.
pub struct PipelineOutput {
    /// The capture cut to the mapped region.
    pub cropped: Grid<Rgba>,
    /// The detected polarity of the cropped image.
    pub light_background: bool,
    /// The image the thresholding stages work on: the crop, inverted
    /// first under `InvertThenThreshold` on a light background.
    pub working: Grid<Rgba>,
    /// The fill color standing for the background of `working`.
    pub fill: Rgba,
    /// The binary foreground mask of `working`.
    pub content_mask: Grid<u8>,
    /// Connected-component labels of the foreground mask.
    pub labels: Grid<usize>,
    pub label_count: usize,
    /// The mask marking pixels of size-filtered regions.
    pub removal: Grid<u8>,
    /// `working` with the pixels of filtered regions filled.
    pub cleaned: Grid<Rgba>,
    /// The OCR-ready image: `cleaned`, brightness-normalized when the
    /// configuration asks for it.
    pub ocr_ready: Grid<Rgba>,
    /// The most frequent color buckets of the OCR-ready image.
    pub dominant: Vec<(Rgba, usize)>,
}

/// Whether the thresholding stages treat the working image as
/// light-background.
pub open spec fn spec_effective_light(policy: PolarityPolicy, detected_light: bool) -> bool {
    match policy {
        PolarityPolicy::ThresholdByPolarity => detected_light,
        PolarityPolicy::InvertThenThreshold => false,
    }
}

/// The background fill color of the working image: white on a light
/// background, black otherwise.
pub open spec fn spec_fill_color(effective_light: bool) -> Rgba {
    if effective_light {
        Rgba { r: 255, g: 255, b: 255, a: 255 }
    } else {
        Rgba { r: 0, g: 0, b: 0, a: 255 }
    }
}

/// Cuts the `w × h` rectangle at `(x, y)` out of `img`.
pub fn crop(img: &Grid<Rgba>, x: usize, y: usize, w: usize, h: usize) -> (out: Grid<Rgba>)
    requires
        img.wf(),
        x + w <= img.width,
        y + h <= img.height,
    ensures
        out.wf(),
        out.width == w,
        out.height == h,
        forall|cx: int, cy: int|
            0 <= cx < w && 0 <= cy < h ==> out.cell(cx, cy) == img.cell(x + cx, y + cy),
{
    let mut cells: Vec<Rgba> = Vec::new();
    let mut cy: usize = 0;
    while cy < h
        invariant
            cy <= h,
            cells.len() == cy * w,
            forall|fx: int, fy: int|
                0 <= fx < w && 0 <= fy < cy ==> cells[flat(fx, fy, w as int)] == img.cell(
                    x + fx,
                    y + fy,
                ),
        decreases h - cy,
    {
        let mut cx: usize = 0;
        while cx < w
            invariant
                cx <= w,
                cy < h,
                cells.len() == cy * w + cx,
                forall|fx: int, fy: int|
                    0 <= fx < w && 0 <= fy < cy ==> cells[flat(fx, fy, w as int)] == img.cell(
                        x + fx,
                        y + fy,
                    ),
                forall|fx: int|
                    0 <= fx < cx ==> cells[flat(fx, cy as int, w as int)] == img.cell(
                        x + fx,
                        y + cy,
                    ),
            decreases w - cx,
        {
            proof {
                lemma_flat_in_bounds(cx as int, cy as int, w as int, h as int);
            }
            cells.push(img.get(x + cx, y + cy));
            proof {
                assert forall|fx: int, fy: int| 0 <= fx < w && 0 <= fy < cy implies flat(
                    fx,
                    fy,
                    w as int,
                ) < cy as int * (w as int) by {
                    lemma_flat_in_bounds(fx, fy, w as int, cy as int);
                    assert((w as int) * (cy as int) == (cy as int) * (w as int))
                        by (nonlinear_arith);
                }
            }
            cx = cx + 1;
        }
        proof {
            assert((cy as int + 1) * (w as int) == cy as int * (w as int) + w as int)
                by (nonlinear_arith);
            assert forall|fx: int, fy: int| 0 <= fx < w && 0 <= fy <= cy implies flat(
                fx,
                fy,
                w as int,
            ) < (cy as int + 1) * (w as int) by {
                lemma_flat_in_bounds(fx, fy, w as int, cy as int + 1);
                assert((w as int) * (cy as int + 1) == (cy as int + 1) * (w as int))
                    by (nonlinear_arith);
            }
        }
        cy = cy + 1;
    }
    proof {
        assert(cells.len() == (w as int) * (h as int)) by (nonlinear_arith)
            requires
                cells.len() == (h as int) * (w as int),
        ;
    }
    Grid { width: w, height: h, cells }
}

/// The binary mask of pixels differing exactly from `fill`.
pub open spec fn spec_exact_mask(cells: Seq<Rgba>, fill: Rgba) -> Seq<u8> {
    Seq::new(
        cells.len(),
        |i: int|
            if cells[i] != fill {
                CONTENT_BIT
            } else {
                0u8
            },
    )
}

/// The removal mask cells of a label buffer under the size bounds.
pub open spec fn spec_removal_cells(labels: Grid<usize>, lower: usize, upper: usize) -> Seq<u8> {
    Seq::new(
        labels.cells@.len(),
        |i: int|
            if spec_removed(labels.cells@, labels.cells@[i], lower, upper) {
                REMOVAL_BIT
            } else {
                0u8
            },
    )
}

/// A one-shot size filter over a whole image: estimate the background
/// polarity of `source_img`, treat every pixel that differs exactly from
/// the polarity's background color as foreground, label the foreground
/// under eight-connectivity, and fill every pixel of a region strictly
/// larger than `upper` or strictly smaller than `lower` with the
/// background color.  Label 0, the background component, is never filled.
pub fn remove_big_tiny_pixel_block(source_img: &Grid<Rgba>, upper: usize, lower: usize) -> (out:
    Grid<Rgba>)
    requires
        source_img.wf(),
        source_img.width >= 1,
        source_img.height >= 1,
        source_img.cells.len() < usize::MAX,
    ensures
        out.wf(),
        out.same_dims(*source_img),
        ({
            let fill = spec_fill_color(spec_is_light(*source_img));
            let mask_cells = spec_exact_mask(source_img.cells@, fill);
            exists|mask: Grid<u8>, labels: Grid<usize>, count: usize|
                #![trigger labelling_ok(
                    source_img.width as int,
                    source_img.height as int,
                    mask.cells@,
                    0u8,
                    labels,
                    count,
                )]
                mask.wf() && mask.same_dims(*source_img) && mask.cells@ == mask_cells
                    && labelling_ok(
                    source_img.width as int,
                    source_img.height as int,
                    mask.cells@,
                    0u8,
                    labels,
                    count,
                ) && adjacency_sound(mask, 0u8, Connectivity::Eight, labels) && out.cells@
                    == composite_spec(
                    source_img.cells@,
                    spec_removal_cells(labels, lower, upper),
                    REMOVAL_BIT,
                    fill,
                )
        }),
{
    let light = is_white_background(source_img);
    let fill = if light {
        Rgba { r: 255, g: 255, b: 255, a: 255 }
    } else {
        Rgba { r: 0, g: 0, b: 0, a: 255 }
    };
    let rule = ContentRule::DiffersFrom { background: fill };
    let mask = rgba_to_mask(source_img, CONTENT_BIT, 0, &rule);
    let (labels, count) = connected_components(&mask, Connectivity::Eight, 0);
    let removal = removal_mask(&labels, count, lower, upper, REMOVAL_BIT, 0);
    let out = mask_and_fill(source_img, &removal, REMOVAL_BIT, fill).unwrap();
    proof {
        let mask_cells = spec_exact_mask(source_img.cells@, fill);
        assert(mask.cells@ =~= mask_cells);
        assert(removal.cells@ =~= spec_removal_cells(labels, lower, upper));
        assert(labelling_ok(
            source_img.width as int,
            source_img.height as int,
            mask_cells,
            0u8,
            labels,
            count,
        ));
        assert(out.cells@ == composite_spec(
            source_img.cells@,
            spec_removal_cells(labels, lower, upper),
            REMOVAL_BIT,
            fill,
        ));
        assert(fill == spec_fill_color(spec_is_light(*source_img)));
        assert(exists|m2: Grid<u8>, l2: Grid<usize>, c2: usize|
            #![trigger labelling_ok(
                source_img.width as int,
                source_img.height as int,
                m2.cells@,
                0u8,
                l2,
                c2,
            )]
            m2.wf() && m2.same_dims(*source_img) && m2.cells@ == spec_exact_mask(
                source_img.cells@,
                spec_fill_color(spec_is_light(*source_img)),
            ) && labelling_ok(
                source_img.width as int,
                source_img.height as int,
                m2.cells@,
                0u8,
                l2,
                c2,
            ) && adjacency_sound(m2, 0u8, Connectivity::Eight, l2) && out.cells@ == composite_spec(
                source_img.cells@,
                spec_removal_cells(l2, lower, upper),
                REMOVAL_BIT,
                spec_fill_color(spec_is_light(*source_img)),
            )) by {
            assert(labelling_ok(
                source_img.width as int,
                source_img.height as int,
                mask.cells@,
                0u8,
                labels,
                count,
            ));
        }
    }
    out
}

/// One full preprocessing run: map and validate the region, crop, detect
/// the background polarity, apply the polarity policy, mask the content
/// pixels, label them, filter regions by size, composite the removal mask
/// over the working image, optionally normalize brightness, and rank the
/// OCR-ready image's dominant colors.
///
/// Fails with `RegionValidation` or `DegenerateCrop` exactly as the
/// region mapper does, and with `InvalidTolerance` exactly when the
/// region is good but the configured color tolerance is 0.
pub fn preprocess(capture: &Grid<Rgba>, screen_region: &str, config: &PipelineConfig) -> (r: Result<
    PipelineOutput,
    PipelineError,
>)
    requires
        capture.wf(),
        capture.cells.len() < usize::MAX,
        capture.width <= u32::MAX,
        capture.height <= u32::MAX,
    ensures
        ({
            let region = spec_parse_region(screen_region.spec_bytes());
            match region {
                Option::None => r == Err::<PipelineOutput, PipelineError>(
                    PipelineError::RegionValidation,
                ),
                Option::Some(v) => {
                    let x = spec_map_coord(capture.width as u32, v.0);
                    let xe = spec_map_coord(capture.width as u32, v.1);
                    let y = spec_map_coord(capture.height as u32, v.2);
                    let ye = spec_map_coord(capture.height as u32, v.3);
                    if !spec_region_valid(v) {
                        r == Err::<PipelineOutput, PipelineError>(PipelineError::RegionValidation)
                    } else if xe == x || ye == y {
                        r == Err::<PipelineOutput, PipelineError>(PipelineError::DegenerateCrop)
                    } else if config.tolerance == 0 {
                        r == Err::<PipelineOutput, PipelineError>(PipelineError::InvalidTolerance)
                    } else {
                        r matches Ok(out) && {
                            let eff_light = spec_effective_light(
                                config.policy,
                                out.light_background,
                            );
                            let rule = ContentRule::Brightness {
                                light_background: eff_light,
                                margin: config.margin,
                            };
                            &&& out.cropped.wf()
                            &&& out.cropped.width == xe - x
                            &&& out.cropped.height == ye - y
                            &&& forall|cx: int, cy: int|
                                0 <= cx < out.cropped.width && 0 <= cy < out.cropped.height
                                    ==> out.cropped.cell(cx, cy) == capture.cell(x + cx, y + cy)
                            &&& out.light_background == spec_is_light(out.cropped)
                            &&& out.working.wf()
                            &&& out.working.same_dims(out.cropped)
                            &&& (forall|i: int|
                                0 <= i < out.working.cells.len() ==> out.working.cells[i] == (
                                if out.light_background && (config.policy
                                    is InvertThenThreshold) {
                                    spec_invert(out.cropped.cells[i])
                                } else {
                                    out.cropped.cells[i]
                                }))
                            &&& out.fill == spec_fill_color(eff_light)
                            &&& out.content_mask.wf()
                            &&& out.content_mask.same_dims(out.working)
                            &&& (forall|i: int|
                                0 <= i < out.content_mask.cells.len()
                                    ==> out.content_mask.cells[i] == (if spec_is_content(
                                    rule,
                                    out.working.cells[i],
                                ) {
                                    CONTENT_BIT
                                } else {
                                    0u8
                                }))
                            &&& labelling_ok(
                                out.content_mask.width as int,
                                out.content_mask.height as int,
                                out.content_mask.cells@,
                                0u8,
                                out.labels,
                                out.label_count,
                            )
                            &&& adjacency_sound(
                                out.content_mask,
                                0u8,
                                config.connectivity,
                                out.labels,
                            )
                            &&& (forall|l: usize|
                                1 <= l <= out.label_count ==> #[trigger] label_connected(
                                    out.content_mask,
                                    0u8,
                                    config.connectivity,
                                    out.labels,
                                    l,
                                ))
                            &&& out.removal.wf()
                            &&& out.removal.same_dims(out.labels)
                            &&& (forall|i: int|
                                0 <= i < out.removal.cells.len() ==> out.removal.cells[i] == (
                                if spec_removed(
                                    out.labels.cells@,
                                    out.labels.cells[i],
                                    config.lower,
                                    config.upper,
                                ) {
                                    REMOVAL_BIT
                                } else {
                                    0u8
                                }))
                            &&& out.cleaned.wf()
                            &&& out.cleaned.same_dims(out.working)
                            &&& out.cleaned.cells@ == composite_spec(
                                out.working.cells@,
                                out.removal.cells@,
                                REMOVAL_BIT,
                                out.fill,
                            )
                            &&& out.ocr_ready.wf()
                            &&& out.ocr_ready.same_dims(out.cleaned)
                            &&& (forall|i: int|
                                0 <= i < out.ocr_ready.cells.len() ==> out.ocr_ready.cells[i] == (
                                if config.normalize {
                                    spec_normalize_pixel(out.cleaned.cells[i])
                                } else {
                                    out.cleaned.cells[i]
                                }))
                            &&& view_pairs(out.dominant@) == spec_most_color(
                                out.ocr_ready.cells@,
                                config.tolerance,
                                config.color_count as int,
                            )
                        }
                    }
                },
            }
        }),
{
    let resolution = (capture.width as u32, capture.height as u32);
    let rect = match convert_screen_region(resolution, screen_region) {
        Ok(rect) => rect,
        Err(e) => {
            return Err(e);
        },
    };
    if config.tolerance == 0 {
        return Err(PipelineError::InvalidTolerance);
    }
    let (rx, ry, rw, rh) = (rect.0 as usize, rect.1 as usize, rect.2 as usize, rect.3 as usize);
    let cropped = crop(capture, rx, ry, rw, rh);
    let light_background = is_white_background(&cropped);
    let invert_first = light_background && matches!(config.policy, PolarityPolicy::InvertThenThreshold);
    let working = if invert_first {
        invert_colors(&cropped)
    } else {
        crop(&cropped, 0, 0, cropped.width, cropped.height)
    };
    proof {
        assert forall|i: int| 0 <= i < working.cells.len() implies working.cells[i] == (
        if light_background && (config.policy is InvertThenThreshold) {
            spec_invert(cropped.cells[i])
        } else {
            cropped.cells[i]
        }) by {
            if !invert_first {
                let w = cropped.width as int;
                let h = cropped.height as int;
                let cy = i / w;
                let cx = i % w;
                vstd::arithmetic::div_mod::lemma_fundamental_div_mod(i, w);
                vstd::arithmetic::div_mod::lemma_mod_division_less_than_divisor(i, w);
                assert(0 <= cy < h) by (nonlinear_arith)
                    requires
                        i == w * cy + cx,
                        0 <= cx < w,
                        0 <= i < w * h,
                ;
                assert(working.cell(cx, cy) == cropped.cell(cx, cy));
                assert(flat(cx, cy, w) == i);
            }
        }
    }
    let effective_light = match config.policy {
        PolarityPolicy::ThresholdByPolarity => light_background,
        PolarityPolicy::InvertThenThreshold => false,
    };
    let fill = if effective_light {
        Rgba { r: 255, g: 255, b: 255, a: 255 }
    } else {
        Rgba { r: 0, g: 0, b: 0, a: 255 }
    };
    let rule = ContentRule::Brightness { light_background: effective_light, margin: config.margin };
    let content_mask = rgba_to_mask(&working, CONTENT_BIT, 0, &rule);
    let (labels, label_count) = connected_components(&content_mask, config.connectivity, 0);
    proof {
        assert(labels.cells.len() < usize::MAX) by (nonlinear_arith)
            requires
                labels.cells.len() == (rw as int) * (rh as int),
                rw <= capture.width,
                rh <= capture.height,
                capture.cells.len() == (capture.width as int) * (capture.height as int),
                capture.cells.len() < usize::MAX,
        ;
    }
    let removal = removal_mask(&labels, label_count, config.lower, config.upper, REMOVAL_BIT, 0);
    let cleaned = mask_and_fill(&working, &removal, REMOVAL_BIT, fill).unwrap();
    let ocr_ready = if config.normalize {
        normalize_brightness(&cleaned)
    } else {
        crop(&cleaned, 0, 0, cleaned.width, cleaned.height)
    };
    proof {
        assert forall|i: int| 0 <= i < ocr_ready.cells.len() implies ocr_ready.cells[i] == (
        if config.normalize {
            spec_normalize_pixel(cleaned.cells[i])
        } else {
            cleaned.cells[i]
        }) by {
            if !config.normalize {
                let w = cleaned.width as int;
                let h = cleaned.height as int;
                let cy = i / w;
                let cx = i % w;
                vstd::arithmetic::div_mod::lemma_fundamental_div_mod(i, w);
                vstd::arithmetic::div_mod::lemma_mod_division_less_than_divisor(i, w);
                assert(0 <= cy < h) by (nonlinear_arith)
                    requires
                        i == w * cy + cx,
                        0 <= cx < w,
                        0 <= i < w * h,
                ;
                assert(ocr_ready.cell(cx, cy) == cleaned.cell(cx, cy));
                assert(flat(cx, cy, w) == i);
            }
        }
    }
    let dominant = most_color(&ocr_ready, config.color_count, config.tolerance).unwrap();
    Ok(
        PipelineOutput {
            cropped,
            light_background,
            working,
            fill,
            content_mask,
            labels,
            label_count,
            removal,
            cleaned,
            ocr_ready,
            dominant,
        },
    )
}

} // verus!
