use ocr_prep::pixel::Rgba;
use ocr_prep::grid::Grid;
use ocr_prep::error::PipelineError;
use ocr_prep::label::Connectivity;
use ocr_prep::pipeline::{preprocess, remove_big_tiny_pixel_block, PipelineConfig, PolarityPolicy};

fn rgba(r: u8, g: u8, b: u8, a: u8) -> Rgba {
    Rgba { r, g, b, a }
}

const WHITE: Rgba = Rgba { r: 255, g: 255, b: 255, a: 255 };
const BLACK: Rgba = Rgba { r: 0, g: 0, b: 0, a: 255 };

/// A 100x100 solid-white capture with one 10x10 solid-black square.
fn white_capture_with_black_square() -> Grid<Rgba> {
    let mut capture = Grid::new_fill(100, 100, WHITE);
    for y in 20..30 {
        for x in 20..30 {
            capture.set(x, y, BLACK);
        }
    }
    capture
}

fn config() -> PipelineConfig {
    PipelineConfig {
        connectivity: Connectivity::Eight,
        lower: 3,
        upper: 1500,
        margin: 100,
        tolerance: 8,
        color_count: 3,
        policy: PolarityPolicy::ThresholdByPolarity,
        normalize: false,
    }
}

#[test]
fn a_black_square_on_white_survives_the_pipeline_intact() {
    let capture = white_capture_with_black_square();
    let out = preprocess(&capture, "(0,1,0,1)", &config()).unwrap();

    assert!(out.light_background);
    assert_eq!(out.cropped.cells, capture.cells);
    assert_eq!(out.working.cells, capture.cells);

    // The foreground predicate marks exactly the black square.
    let marked: usize = out.content_mask.cells.iter().filter(|&&m| m == 255).count();
    assert_eq!(marked, 100);

    // The labeller assigns it one non-zero label with 100 pixels.
    assert_eq!(out.label_count, 1);
    let labelled: usize = out.labels.cells.iter().filter(|&&l| l == 1).count();
    assert_eq!(labelled, 100);

    // With lower=3 and upper=1500 the region is retained: the size-filter
    // mask marks nothing, and the compositor leaves the image unchanged.
    assert!(out.removal.cells.iter().all(|&m| m == 0));
    assert_eq!(out.cleaned.cells, capture.cells);

    // The dominant color is the white bucket with all background pixels.
    assert_eq!(out.dominant[0], (rgba(248, 248, 248, 255), 9900));
    assert_eq!(out.dominant[1], (rgba(0, 0, 0, 255), 100));
}

#[test]
fn the_invert_policy_inverts_a_light_capture_first() {
    let capture = white_capture_with_black_square();
    let mut cfg = config();
    cfg.policy = PolarityPolicy::InvertThenThreshold;
    let out = preprocess(&capture, "(0,1,0,1)", &cfg).unwrap();

    assert!(out.light_background);
    let inverted: Vec<Rgba> = capture
        .cells
        .iter()
        .map(|p| rgba(255 - p.r, 255 - p.g, 255 - p.b, p.a))
        .collect();
    assert_eq!(out.working.cells, inverted);
    // The square, now white on black, is still the only region and stays.
    assert_eq!(out.label_count, 1);
    assert_eq!(out.cleaned.cells, inverted);
}

#[test]
fn preprocess_crops_to_the_requested_region() {
    let capture = white_capture_with_black_square();
    let out = preprocess(&capture, "(0.2,0.3,0.2,0.3)", &config()).unwrap();
    assert_eq!(out.cropped.width, 10);
    assert_eq!(out.cropped.height, 10);
    // That region is exactly the black square: a dark background now.
    assert!(!out.light_background);
    assert_eq!(out.cleaned.cells, vec![BLACK; 100]);
}

#[test]
fn preprocess_reports_region_errors() {
    let capture = Grid::new_fill(10, 10, WHITE);
    assert_eq!(
        preprocess(&capture, "(0,2,0,1)", &config()).err().unwrap(),
        PipelineError::RegionValidation
    );
    assert_eq!(
        preprocess(&capture, "nonsense", &config()).err().unwrap(),
        PipelineError::RegionValidation
    );
    assert_eq!(
        preprocess(&capture, "(0.5,0.5,0,1)", &config()).err().unwrap(),
        PipelineError::DegenerateCrop
    );
}

#[test]
fn normalization_brightens_the_ocr_ready_image() {
    // A dark-gray-on-dim capture: normalization scales each pixel's
    // brightest channel to full intensity.
    let mut capture = Grid::new_fill(10, 10, rgba(100, 50, 25, 255));
    capture.set(5, 5, rgba(10, 0, 0, 255));
    let mut cfg = config();
    cfg.normalize = true;
    cfg.margin = 20;
    let out = preprocess(&capture, "(0,1,0,1)", &cfg).unwrap();
    assert_eq!(out.cleaned.cells, capture.cells);
    assert_eq!(out.ocr_ready.get(0, 0), rgba(255, 128, 64, 255));
    assert_eq!(out.ocr_ready.get(5, 5), rgba(255, 0, 0, 255));
}

#[test]
fn preprocess_rejects_a_zero_tolerance() {
    let capture = Grid::new_fill(10, 10, WHITE);
    let mut cfg = config();
    cfg.tolerance = 0;
    assert_eq!(
        preprocess(&capture, "(0,1,0,1)", &cfg).err().unwrap(),
        PipelineError::InvalidTolerance
    );
}

#[test]
fn oversized_and_tiny_blocks_are_filled_with_the_background() {
    // White background; one 4x4 block (16 px), one 2x2 block (4 px) and
    // one single pixel.  Bounds [3, 15]: the 4x4 and the single pixel go,
    // the 2x2 stays.
    let mut img = Grid::new_fill(20, 20, WHITE);
    for y in 2..6 {
        for x in 2..6 {
            img.set(x, y, BLACK);
        }
    }
    for y in 10..12 {
        for x in 10..12 {
            img.set(x, y, BLACK);
        }
    }
    img.set(17, 17, BLACK);

    let out = remove_big_tiny_pixel_block(&img, 15, 3);
    assert_eq!(out.width, 20);
    assert_eq!(out.height, 20);
    for y in 0..20 {
        for x in 0..20 {
            let kept_black = (10..12).contains(&x) && (10..12).contains(&y);
            let expected = if kept_black { BLACK } else { WHITE };
            assert_eq!(out.get(x, y), expected, "at ({x},{y})");
        }
    }
}

#[test]
fn a_block_of_exactly_upper_pixels_survives_the_size_filter() {
    let mut img = Grid::new_fill(10, 10, WHITE);
    for y in 1..5 {
        for x in 1..5 {
            img.set(x, y, BLACK);
        }
    }
    let out = remove_big_tiny_pixel_block(&img, 16, 0);
    assert_eq!(out.cells, img.cells);
    let removed = remove_big_tiny_pixel_block(&img, 15, 0);
    assert_eq!(removed.cells, vec![WHITE; 100]);
}
