use ocr_prep::pixel::Rgba;
use ocr_prep::grid::Grid;
use ocr_prep::error::PipelineError;
use ocr_prep::foreground::{filter_pixels, invert_colors, rgba_to_mask, ContentRule};
use ocr_prep::background::is_white_background;
use ocr_prep::composite::mask_and_fill;
use ocr_prep::normalize::normalize_brightness;
use ocr_prep::size_filter::removal_mask;
use ocr_prep::label::{connected_components, Connectivity};
use ocr_prep::dominant::most_color;
use ocr_prep::pixel::same_rbga;

fn rgba(r: u8, g: u8, b: u8, a: u8) -> Rgba {
    Rgba { r, g, b, a }
}

fn solid(width: usize, height: usize, p: Rgba) -> Grid<Rgba> {
    Grid::new_fill(width, height, p)
}

#[test]
fn background_mean_exactly_128_is_light() {
    let img = solid(3, 3, rgba(128, 128, 128, 255));
    assert!(is_white_background(&img));
}

#[test]
fn background_mean_exactly_127_is_dark() {
    let img = solid(3, 3, rgba(127, 127, 127, 255));
    assert!(!is_white_background(&img));
}

#[test]
fn background_samples_only_the_border_ring() {
    // Border is white, interior black: the interior must not matter.
    let mut img = solid(5, 5, rgba(255, 255, 255, 255));
    for y in 1..4 {
        for x in 1..4 {
            img.set(x, y, rgba(0, 0, 0, 255));
        }
    }
    assert!(is_white_background(&img));
}

#[test]
fn background_of_single_row_and_single_pixel_images() {
    // Degenerate rings: every pixel lies on the border and counts once.
    let row = solid(3, 1, rgba(128, 128, 128, 255));
    assert!(is_white_background(&row));
    let column = solid(1, 3, rgba(127, 127, 127, 255));
    assert!(!is_white_background(&column));
    let dot = solid(1, 1, rgba(255, 255, 255, 255));
    assert!(is_white_background(&dot));
}

#[test]
fn background_mean_uses_integer_division() {
    // Ring of a 2x2 image is all four pixels: three white and one black
    // average to 191 (integer division), comfortably light.
    let mut img = solid(2, 2, rgba(255, 255, 255, 255));
    img.set(1, 1, rgba(0, 0, 0, 255));
    assert!(is_white_background(&img));
}

#[test]
fn same_rbga_is_strict_on_the_tolerance() {
    let a = rgba(10, 10, 10, 255);
    let b = rgba(12, 12, 12, 0);
    assert!(same_rbga(&a, &b, 3));
    assert!(!same_rbga(&a, &b, 2));
}

#[test]
fn invert_colors_flips_channels_and_keeps_alpha() {
    let img = solid(2, 1, rgba(1, 2, 3, 77));
    let out = invert_colors(&img);
    assert_eq!(out.cells, vec![rgba(254, 253, 252, 77); 2]);
}

#[test]
fn filter_pixels_keeps_content_and_fills_the_rest() {
    let mut img = solid(2, 1, rgba(255, 255, 255, 255));
    img.set(0, 0, rgba(0, 0, 0, 255));
    let rule = ContentRule::Brightness { light_background: true, margin: 100 };
    let out = filter_pixels(&img, rgba(9, 9, 9, 9), &rule);
    assert_eq!(out.cells[0], rgba(0, 0, 0, 255));
    assert_eq!(out.cells[1], rgba(9, 9, 9, 9));
}

#[test]
fn rgba_to_mask_marks_content_pixels() {
    let mut img = solid(2, 1, rgba(0, 0, 0, 255));
    img.set(1, 0, rgba(250, 250, 250, 255));
    let rule = ContentRule::Brightness { light_background: false, margin: 60 };
    let mask = rgba_to_mask(&img, 255, 0, &rule);
    assert_eq!(mask.cells, vec![0u8, 255u8]);
}

#[test]
fn normalize_scales_the_brightest_channel_to_full() {
    let img = solid(1, 1, rgba(200, 100, 50, 7));
    let out = normalize_brightness(&img);
    assert_eq!(out.cells[0], rgba(255, 128, 64, 7));
}

#[test]
fn normalize_leaves_pure_black_untouched() {
    let img = solid(1, 1, rgba(0, 0, 0, 9));
    let out = normalize_brightness(&img);
    assert_eq!(out.cells[0], rgba(0, 0, 0, 9));
}

#[test]
fn compositing_an_all_inactive_mask_copies_the_source() {
    let mut img = solid(3, 2, rgba(10, 20, 30, 40));
    img.set(2, 1, rgba(1, 1, 1, 1));
    let mask = Grid::new_fill(3, 2, 0u8);
    let out = mask_and_fill(&img, &mask, 255, rgba(0, 0, 0, 255)).unwrap();
    assert_eq!(out.cells, img.cells);
}

#[test]
fn compositing_an_all_active_mask_yields_the_fill_color() {
    let img = solid(3, 2, rgba(10, 20, 30, 40));
    let mask = Grid::new_fill(3, 2, 255u8);
    let fill = rgba(5, 6, 7, 8);
    let out = mask_and_fill(&img, &mask, 255, fill).unwrap();
    assert_eq!(out.cells, vec![fill; 6]);
}

#[test]
fn compositing_rejects_mismatched_dimensions() {
    let img = solid(3, 2, rgba(0, 0, 0, 255));
    let mask = Grid::new_fill(2, 3, 0u8);
    let out = mask_and_fill(&img, &mask, 255, rgba(0, 0, 0, 255));
    assert_eq!(out.err().unwrap(), PipelineError::DimensionMismatch);
}

#[test]
fn labelling_a_uniform_image_yields_no_labels() {
    let mask = Grid::new_fill(6, 4, 7u8);
    let (labels, count) = connected_components(&mask, Connectivity::Eight, 7);
    assert_eq!(count, 0);
    assert!(labels.cells.iter().all(|&l| l == 0));
}

#[test]
fn labelling_one_blob_yields_one_label() {
    let mut mask = Grid::new_fill(6, 4, 0u8);
    mask.set(1, 1, 255);
    mask.set(2, 1, 255);
    mask.set(1, 2, 255);
    let (labels, count) = connected_components(&mask, Connectivity::Four, 0);
    assert_eq!(count, 1);
    let labelled: usize = labels.cells.iter().filter(|&&l| l == 1).count();
    assert_eq!(labelled, 3);
}

#[test]
fn diagonal_pixels_connect_only_under_eight_connectivity() {
    let mut mask = Grid::new_fill(4, 4, 0u8);
    mask.set(0, 0, 255);
    mask.set(1, 1, 255);
    let (_, count4) = connected_components(&mask, Connectivity::Four, 0);
    let (_, count8) = connected_components(&mask, Connectivity::Eight, 0);
    assert_eq!(count4, 2);
    assert_eq!(count8, 1);
}

fn one_region_labels(pixels: usize) -> Grid<usize> {
    // A single row: `pixels` cells of label 1, the rest background.
    let mut labels = Grid::new_fill(pixels + 2, 1, 0usize);
    for x in 0..pixels {
        labels.set(x, 0, 1);
    }
    labels
}

#[test]
fn a_region_of_exactly_upper_pixels_is_retained() {
    let labels = one_region_labels(5);
    let mask = removal_mask(&labels, 1, 0, 5, 255, 0);
    assert!(mask.cells.iter().all(|&m| m == 0));
}

#[test]
fn a_region_of_upper_plus_one_pixels_is_removed() {
    let labels = one_region_labels(6);
    let mask = removal_mask(&labels, 1, 0, 5, 255, 0);
    for (i, &m) in mask.cells.iter().enumerate() {
        if labels.cells[i] == 1 {
            assert_eq!(m, 255);
        } else {
            assert_eq!(m, 0);
        }
    }
}

#[test]
fn a_region_of_lower_minus_one_pixels_is_removed() {
    let labels = one_region_labels(2);
    let mask = removal_mask(&labels, 1, 3, 100, 255, 0);
    for (i, &m) in mask.cells.iter().enumerate() {
        if labels.cells[i] == 1 {
            assert_eq!(m, 255);
        } else {
            assert_eq!(m, 0);
        }
    }
}

#[test]
fn a_lower_bound_of_zero_disables_tiny_removal() {
    let labels = one_region_labels(1);
    let mask = removal_mask(&labels, 1, 0, 100, 255, 0);
    assert!(mask.cells.iter().all(|&m| m == 0));
}

#[test]
fn label_zero_is_never_marked_for_removal() {
    // Background count falls outside [lower, upper] but stays unmarked.
    let labels = Grid::new_fill(4, 4, 0usize);
    let mask = removal_mask(&labels, 0, 2, 3, 255, 0);
    assert!(mask.cells.iter().all(|&m| m == 0));
}

#[test]
fn most_color_ranks_a_sixty_forty_split() {
    let mut img = solid(10, 10, rgba(200, 0, 0, 255));
    for i in 0..40 {
        let (x, y) = (i % 10, 6 + i / 10);
        img.set(x, y, rgba(0, 0, 200, 255));
    }
    let top = most_color(&img, 2, 50).unwrap();
    assert_eq!(top.len(), 2);
    assert_eq!(top[0], (rgba(200, 0, 0, 255), 60));
    assert_eq!(top[1], (rgba(0, 0, 200, 255), 40));
}

#[test]
fn most_color_breaks_ties_by_first_encountered_bucket() {
    let mut img = solid(2, 1, rgba(10, 10, 10, 255));
    img.set(1, 0, rgba(110, 110, 110, 255));
    let top = most_color(&img, 5, 50).unwrap();
    assert_eq!(top[0], (rgba(0, 0, 0, 255), 1));
    assert_eq!(top[1], (rgba(100, 100, 100, 255), 1));
}

#[test]
fn most_color_quantizes_alpha_to_opaque() {
    let img = solid(1, 1, rgba(13, 27, 41, 3));
    let top = most_color(&img, 1, 10).unwrap();
    assert_eq!(top[0], (rgba(10, 20, 40, 255), 1));
}

#[test]
fn most_color_rejects_a_zero_tolerance() {
    let img = solid(1, 1, rgba(0, 0, 0, 255));
    assert_eq!(most_color(&img, 1, 0).unwrap_err(), PipelineError::InvalidTolerance);
}

#[test]
fn most_color_returns_at_most_the_requested_count() {
    let mut img = solid(3, 1, rgba(10, 10, 10, 255));
    img.set(1, 0, rgba(110, 110, 110, 255));
    img.set(2, 0, rgba(210, 210, 210, 255));
    let top = most_color(&img, 2, 50).unwrap();
    assert_eq!(top.len(), 2);
}
