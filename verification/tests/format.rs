use ocr_backend::{Format, Line, Paragraph, Rect, TextRegion};

fn region(text: &str, left: i32, top: i32, width: u32, height: u32) -> TextRegion {
    TextRegion { text: text.to_string(), rect: Rect { top, left, width, height } }
}

fn paragraphs_of(regions: Vec<TextRegion>) -> Vec<Paragraph> {
    let mut format = Format { results: regions };
    let lines = format.to_lines();
    format.to_paragraphs(&lines)
}

#[test]
fn to_lines_numbers_lines_by_position() {
    let mut format = Format { results: vec![region("alpha", 1, 2, 30, 4), region("beta", -5, 7, 8, 9)] };
    let lines = format.to_lines();
    assert_eq!(lines.len(), 2);
    assert_eq!(lines[0].index, 0);
    assert_eq!(lines[0].text, "alpha");
    assert_eq!((lines[0].bbox.left, lines[0].bbox.top, lines[0].bbox.width, lines[0].bbox.height), (1, 2, 30, 4));
    assert_eq!(lines[1].index, 1);
    assert_eq!(lines[1].text, "beta");
    assert_eq!((lines[1].bbox.left, lines[1].bbox.top), (-5, 7));
    assert_eq!(format.results.len(), 2);
}

#[test]
fn to_lines_of_nothing_is_empty() {
    let mut format = Format { results: Vec::new() };
    assert!(format.to_lines().is_empty());
}

#[test]
fn overlapping_lines_form_one_paragraph_far_lines_another() {
    let paragraphs = paragraphs_of(vec![
        region("First line of text", 10, 10, 180, 20),
        region("second line here", 10, 25, 160, 20),
        region("Far away column", 500, 10, 150, 20),
    ]);
    assert_eq!(paragraphs.len(), 2);
    let p = &paragraphs[0];
    assert_eq!(p.lines, vec![0, 1]);
    assert_eq!(p.text, "First line of text\nsecond line here");
    assert_eq!((p.bbox.left, p.bbox.top, p.bbox.width, p.bbox.height), (10, 10, 180, 35));
    assert_eq!(p.font_size, 20);
    let q = &paragraphs[1];
    assert_eq!(q.lines, vec![2]);
    assert_eq!(q.text, "Far away column");
    assert_eq!((q.bbox.left, q.bbox.top, q.bbox.width, q.bbox.height), (500, 10, 150, 20));
    assert_eq!(q.font_size, 20);
}

#[test]
fn paragraph_text_runs_from_top_to_bottom() {
    let paragraphs = paragraphs_of(vec![
        region("lower line", 0, 25, 100, 20),
        region("upper line", 0, 10, 100, 20),
    ]);
    assert_eq!(paragraphs.len(), 1);
    assert_eq!(paragraphs[0].lines, vec![0, 1]);
    assert_eq!(paragraphs[0].text, "upper line\nlower line");
}

#[test]
fn lines_with_equal_tops_keep_their_order() {
    let paragraphs = paragraphs_of(vec![
        region("left part", 0, 10, 90, 20),
        region("right part", 90, 10, 100, 20),
    ]);
    assert_eq!(paragraphs.len(), 1);
    assert_eq!(paragraphs[0].text, "left part\nright part");
}

#[test]
fn touching_lines_join_one_paragraph() {
    // The second box starts exactly where the first one ends.
    let paragraphs = paragraphs_of(vec![region("top words", 0, 0, 90, 20), region("next words", 0, 20, 100, 20)]);
    assert_eq!(paragraphs.len(), 1);
    assert_eq!((paragraphs[0].bbox.top, paragraphs[0].bbox.height, paragraphs[0].bbox.width), (0, 40, 100));
}

#[test]
fn same_column_lines_within_the_median_height_join() {
    // Sampled heights (lines 0 and 4) are 40 and 40: the reference height is 40.
    // Lines 1 and 2 do not overlap, but share a column and span 25 < 40.
    let paragraphs = paragraphs_of(vec![
        region("header words", 1000, 0, 120, 40),
        region("body line a", 0, 100, 110, 10),
        region("body line b", 0, 115, 110, 10),
        region("other text", 1000, 500, 100, 10),
        region("last words", 2000, 900, 100, 40),
    ]);
    assert_eq!(paragraphs.len(), 4);
    assert_eq!(paragraphs[0].lines, vec![0]);
    assert_eq!(paragraphs[1].lines, vec![1, 2]);
    assert_eq!(paragraphs[1].text, "body line a\nbody line b");
    let b = paragraphs[1].bbox;
    assert_eq!((b.left, b.top, b.width, b.height), (0, 100, 110, 25));
    assert_eq!(paragraphs[1].font_size, 10);
    assert_eq!(paragraphs[2].lines, vec![3]);
    assert_eq!(paragraphs[3].lines, vec![4]);
    assert_eq!(paragraphs[3].font_size, 40);
}

#[test]
fn same_column_lines_beyond_the_median_height_stay_apart() {
    // All heights 10: the span of 25 is not below 10, and the boxes do not touch.
    let paragraphs = paragraphs_of(vec![region("body line a", 0, 100, 110, 10), region("body line b", 0, 115, 110, 10)]);
    assert_eq!(paragraphs.len(), 2);
}

#[test]
fn font_size_is_clamped() {
    let small = paragraphs_of(vec![region("tiny letters", 0, 0, 120, 5)]);
    assert_eq!(small[0].font_size, 8);
    let large = paragraphs_of(vec![region("huge letters", 0, 0, 1200, 300)]);
    assert_eq!(large[0].font_size, 200);
}

#[test]
fn font_size_is_the_median_height() {
    // One paragraph of three overlapping lines of heights 18, 40, 22: median 22.
    let paragraphs = paragraphs_of(vec![
        region("line number one", 0, 0, 150, 18),
        region("line number two", 0, 10, 150, 40),
        region("line number three", 0, 30, 170, 22),
    ]);
    assert_eq!(paragraphs.len(), 1);
    assert_eq!(paragraphs[0].font_size, 22);
    // Even count: heights 18 and 23 give (18 + 23) / 2 = 20.
    let paragraphs = paragraphs_of(vec![region("line number one", 0, 0, 150, 18), region("line number two", 0, 10, 150, 23)]);
    assert_eq!(paragraphs[0].font_size, 20);
}

#[test]
fn filtered_lines_do_not_appear() {
    let paragraphs = paragraphs_of(vec![
        region("Real sentence", 0, 0, 130, 20),
        region("42", 0, 100, 20, 20),
        region("2024-01-01", 0, 200, 100, 20),
    ]);
    assert_eq!(paragraphs.len(), 1);
    assert_eq!(paragraphs[0].lines, vec![0]);
}

#[test]
fn missing_line_index_gives_empty_text_and_default_font() {
    let lines = vec![Line { index: 7, bbox: Rect { top: 0, left: 0, width: 100, height: 20 }, text: "orphan line".to_string() }];
    let mut format = Format { results: Vec::new() };
    let paragraphs = format.to_paragraphs(&lines);
    assert_eq!(paragraphs.len(), 1);
    assert_eq!(paragraphs[0].lines, vec![7]);
    assert_eq!(paragraphs[0].text, "");
    assert_eq!(paragraphs[0].font_size, 16);
}

#[test]
fn every_kept_line_is_in_exactly_one_paragraph() {
    let paragraphs = paragraphs_of(vec![
        region("column one a", 0, 0, 120, 20),
        region("column two a", 400, 0, 120, 20),
        region("column one b", 0, 15, 120, 20),
        region("column two b", 400, 15, 120, 20),
        region("footer text", 0, 900, 110, 20),
    ]);
    let mut all: Vec<usize> = paragraphs.iter().flat_map(|p| p.lines.clone()).collect();
    all.sort();
    assert_eq!(all, vec![0, 1, 2, 3, 4]);
    assert_eq!(paragraphs.len(), 3);
    assert_eq!(paragraphs[0].lines, vec![0, 2]);
    assert_eq!(paragraphs[1].lines, vec![1, 3]);
    assert_eq!(paragraphs[2].lines, vec![4]);
    for p in &paragraphs {
        assert!(p.font_size == 16 || (8..=200).contains(&p.font_size));
    }
}

fn line(index: usize, text: &str, left: i32, top: i32, width: u32, height: u32) -> Line {
    Line { index, bbox: Rect { top, left, width, height }, text: text.to_string() }
}

#[test]
fn ordinary_pages_can_form_paragraphs() {
    let lines = vec![line(0, "First line of text", 10, 10, 180, 20), line(1, "second line here", 10, 25, 160, 20)];
    assert!(ocr_backend::can_form_paragraphs(&lines));
}

#[test]
fn no_lines_form_no_paragraphs() {
    assert!(ocr_backend::can_form_paragraphs(&Vec::new()));
    let mut format = Format { results: Vec::new() };
    let lines = format.to_lines();
    assert!(format.to_paragraphs(&lines).is_empty());
}

#[test]
fn right_edge_overflow_cannot_form_paragraphs() {
    // The second box's right edge exceeds i32::MAX when it is compared with the first.
    let lines = vec![line(0, "ordinary words", 0, 0, 140, 20), line(1, "far right edge", i32::MAX - 5, 0, 140, 20)];
    assert!(!ocr_backend::can_form_paragraphs(&lines));
    // Alone, the same box is never compared and is laid out.
    let lines = vec![line(0, "far right edge", i32::MAX - 5, 0, 140, 20)];
    assert!(ocr_backend::can_form_paragraphs(&lines));
    let mut format = Format { results: Vec::new() };
    let paragraphs = format.to_paragraphs(&lines);
    assert_eq!(paragraphs.len(), 1);
    assert_eq!(paragraphs[0].text, "far right edge");
}

#[test]
fn width_sum_overflow_cannot_form_paragraphs() {
    let lines = vec![line(0, "w", 0, 0, u32::MAX, 20), line(1, "v", 0, 100, u32::MAX, 20)];
    assert!(!ocr_backend::can_form_paragraphs(&lines));
    let lines = vec![line(0, "wide", 0, 0, 4_000_000_000, 20), line(1, "v", 0, 100, 1, 20)];
    assert!(ocr_backend::can_form_paragraphs(&lines));
}

#[test]
fn huge_widths_of_short_lines_are_never_compared() {
    // "x" is short, so its width never meets the average.
    let lines = vec![line(0, "x", 0, 0, u32::MAX, 20)];
    assert!(ocr_backend::can_form_paragraphs(&lines));
    let mut format = Format { results: Vec::new() };
    assert!(format.to_paragraphs(&lines).is_empty());
}

#[test]
fn missing_line_indices_lists_indices_without_lines() {
    let lines = vec![Line { index: 7, bbox: Rect { top: 0, left: 0, width: 100, height: 20 }, text: "orphan line".to_string() }];
    let mut format = Format { results: Vec::new() };
    let paragraphs = format.to_paragraphs(&lines);
    assert_eq!(ocr_backend::missing_line_indices(&paragraphs, &lines), vec![7]);
}

#[test]
fn numbered_lines_have_no_missing_indices() {
    let mut format = Format { results: vec![region("First line of text", 10, 10, 180, 20), region("Far away column", 500, 10, 150, 20)] };
    let lines = format.to_lines();
    let paragraphs = format.to_paragraphs(&lines);
    assert!(ocr_backend::missing_line_indices(&paragraphs, &lines).is_empty());
}
