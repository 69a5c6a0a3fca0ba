use ocr_prep::error::PipelineError;
use ocr_prep::region::convert_screen_region;
use ocr_prep::hotkey::{combo_step, ControllerState};
use ocr_prep::display::bounded_append;
use ocr_prep::translator::{effective_content, is_displayable_chunk, TranslateRequest};
use ocr_prep::openaiapi::{Choice, Message};

#[test]
fn region_maps_the_lower_left_quarter() {
    let r = convert_screen_region((1920, 1080), "(0,0.5,0.5,1)").unwrap();
    assert_eq!(r, (0, 540, 960, 540));
}

#[test]
fn region_maps_the_full_screen() {
    let r = convert_screen_region((2560, 1600), "(0,1,0,1)").unwrap();
    assert_eq!(r, (0, 0, 2560, 1600));
}

#[test]
fn region_accepts_spaces_between_fields() {
    let r = convert_screen_region((100, 100), " ( 0 , 1 , 0.5 , 1 ) ").unwrap();
    assert_eq!(r, (0, 50, 100, 50));
}

#[test]
fn region_rounds_half_up_at_both_ends() {
    // 3 * 0.5 = 1.5 rounds to 2 for the end coordinate.
    let r = convert_screen_region((3, 3), "(0,0.5,0,1)").unwrap();
    assert_eq!(r, (0, 0, 2, 3));
    // The start coordinate uses the same rule: 3 * 0.5 rounds to 2.
    let r = convert_screen_region((3, 3), "(0.5,1,0,1)").unwrap();
    assert_eq!(r, (2, 0, 1, 3));
}

#[test]
fn region_rounds_half_up_at_the_exact_midpoint() {
    // 1000 * 0.0004 = 0.4 rounds down; 1000 * 0.0005 = 0.5 rounds up.
    let r = convert_screen_region((1000, 1000), "(0.0004,1,0,1)").unwrap();
    assert_eq!(r.0, 0);
    let r = convert_screen_region((1000, 1000), "(0.0005,1,0,1)").unwrap();
    assert_eq!(r.0, 1);
}

#[test]
fn region_accepts_fraction_one_written_long() {
    let r = convert_screen_region((100, 100), "(0,1.000000000,0,1)").unwrap();
    assert_eq!(r, (0, 0, 100, 100));
}

#[test]
fn region_requires_digits_on_both_sides_of_the_point() {
    for bad in [".5", "0.", "(.5,1,0,1)", "(0.,1,0,1)"] {
        let e = convert_screen_region((100, 100), bad).unwrap_err();
        assert_eq!(e, PipelineError::RegionValidation, "input: {bad:?}");
    }
}

#[test]
fn region_rejects_fractions_above_one() {
    let e = convert_screen_region((100, 100), "(0,2,0,1)").unwrap_err();
    assert_eq!(e, PipelineError::RegionValidation);
}

#[test]
fn region_rejects_a_backward_span() {
    let e = convert_screen_region((100, 100), "(0.5,0.2,0,1)").unwrap_err();
    assert_eq!(e, PipelineError::RegionValidation);
    let e = convert_screen_region((100, 100), "(0,1,0.9,0.3)").unwrap_err();
    assert_eq!(e, PipelineError::RegionValidation);
}

#[test]
fn region_rejects_a_zero_width_span_as_degenerate() {
    let e = convert_screen_region((100, 100), "(0.5,0.5,0,1)").unwrap_err();
    assert_eq!(e, PipelineError::DegenerateCrop);
}

#[test]
fn region_rejects_malformed_text() {
    for bad in [
        "abc",
        "",
        "(0,1,0)",
        "(0,1,0,1,1)",
        "0,1,0,1",
        "(0,1,0,1) x",
        "(0,1,0,1",
        "(0,1,0,.)",
        "(-0.1,1,0,1)",
        "(0.0000000001,1,0,1)",
    ] {
        let e = convert_screen_region((100, 100), bad).unwrap_err();
        assert_eq!(e, PipelineError::RegionValidation, "input: {bad:?}");
    }
}

#[test]
fn region_on_a_tiny_screen_stays_inside_it() {
    let (x, y, w, h) = convert_screen_region((1, 1), "(0,1,0,1)").unwrap();
    assert!(x + w <= 1 && y + h <= 1);
    assert_eq!((x, y, w, h), (0, 0, 1, 1));
}

#[test]
fn combo_fires_once_on_release_after_both_buttons() {
    let s = ControllerState::NotPressed;
    let (s, fired) = combo_step(s, true, false);
    assert_eq!((s, fired), (ControllerState::KeyA, false));
    let (s, fired) = combo_step(s, true, true);
    assert_eq!((s, fired), (ControllerState::BothKeys, false));
    let (s, fired) = combo_step(s, true, true);
    assert_eq!((s, fired), (ControllerState::BothKeys, false));
    let (s, fired) = combo_step(s, true, false);
    assert_eq!((s, fired), (ControllerState::NotPressed, true));
    let (_, fired) = combo_step(s, false, false);
    assert!(!fired);
}

#[test]
fn combo_releasing_early_resets_without_firing() {
    let s = ControllerState::NotPressed;
    let (s, _) = combo_step(s, false, true);
    assert_eq!(s, ControllerState::KeyB);
    let (s, fired) = combo_step(s, false, false);
    assert_eq!((s, fired), (ControllerState::NotPressed, false));
}

#[test]
fn bounded_append_keeps_the_newest_characters() {
    let mut buffer: Vec<char> = "abc".chars().collect();
    let input: Vec<char> = "defg".chars().collect();
    bounded_append(&mut buffer, &input, 5);
    assert_eq!(buffer.iter().collect::<String>(), "cdefg");
}

#[test]
fn bounded_append_keeps_everything_that_fits() {
    let mut buffer: Vec<char> = "abc".chars().collect();
    let input: Vec<char> = "de".chars().collect();
    bounded_append(&mut buffer, &input, 10);
    assert_eq!(buffer.iter().collect::<String>(), "abcde");
}

#[test]
fn empty_request_content_falls_back_to_the_sample() {
    assert_eq!(effective_content(""), "これはテスト文です。");
    assert_eq!(effective_content("hello"), "hello");
}

#[test]
fn whitespace_only_chunks_are_not_displayable() {
    assert!(!is_displayable_chunk(""));
    assert!(!is_displayable_chunk(" \n \n"));
    assert!(is_displayable_chunk(" a\n"));
    assert!(is_displayable_chunk("こん"));
}

#[test]
fn translate_request_keeps_its_fields() {
    let r = TranslateRequest::new("text", "Japanese", "English");
    assert_eq!(r.content, "text");
    assert_eq!(r.src_lang, "Japanese");
    assert_eq!(r.target_lang, "English");
}

#[test]
fn choice_carries_its_index_and_message() {
    let c = Choice::new(3, Message { content: "hi".to_string() });
    assert_eq!(c.index(), 3);
    assert_eq!(c.message.content, "hi");
}
