use ocr_backend::{is_single_line, Filter, Line, Paragraph, Rect};

fn line(index: usize, text: &str, width: u32) -> Line {
    Line { index, bbox: Rect { top: 10 * index as i32, left: 0, width, height: 12 }, text: text.to_string() }
}

fn texts(lines: &[Line]) -> Vec<String> {
    lines.iter().map(|l| l.text.clone()).collect()
}

fn paragraph(text: &str, lines: Vec<usize>) -> Paragraph {
    Paragraph { bbox: Rect { top: 0, left: 0, width: 50, height: 20 }, text: text.to_string(), lines, font_size: 12 }
}

#[test]
fn front_filter_drops_short_numeric_and_narrow_lines() {
    // Per-character widths: 10, 10, 10, 2, 10; their mean is 42 / 5 = 8.
    let lines = vec![
        line(0, "Hello world", 110),
        line(1, "ab", 20),
        line(2, "12345a", 60),
        line(3, "tiny text", 18),
        line(4, "another line", 120),
    ];
    let kept = Filter {}.front_filter(&lines);
    assert_eq!(texts(&kept), vec!["Hello world".to_string(), "another line".to_string()]);
    assert_eq!(kept[0].index, 0);
    assert_eq!(kept[1].index, 4);
    assert_eq!(kept[1].bbox.width, 120);
    assert_eq!(kept[1].bbox.top, 40);
}

#[test]
fn front_filter_keeps_lines_within_two_units_of_the_average() {
    // Widths per character 10 and 8: mean 9; 8 + 2 >= 9 keeps the second.
    let lines = vec![line(0, "abcde", 50), line(1, "fghij", 40)];
    let kept = Filter {}.front_filter(&lines);
    assert_eq!(kept.len(), 2);
    // Widths 12 and 8: mean 10; 8 + 2 >= 10 still keeps it.
    let lines = vec![line(0, "abcde", 60), line(1, "fghij", 40)];
    assert_eq!(Filter {}.front_filter(&lines).len(), 2);
    // Widths 14 and 8: mean 11; 8 + 2 < 11 drops it.
    let lines = vec![line(0, "abcde", 70), line(1, "fghij", 40)];
    assert_eq!(texts(&Filter {}.front_filter(&lines)), vec!["abcde".to_string()]);
}

#[test]
fn front_filter_short_means_fewer_than_three_characters() {
    let lines = vec![line(0, "abc", 30), line(1, "xy", 20), line(2, "\u{4e2d}\u{6587}", 20)];
    let kept = Filter {}.front_filter(&lines);
    assert_eq!(texts(&kept), vec!["abc".to_string()]);
}

#[test]
fn front_filter_counts_characters_not_bytes() {
    // Three CJK characters: not short, width 30 / 3 = 10 per character.
    let lines = vec![line(0, "\u{4e2d}\u{6587}\u{5b57}", 30), line(1, "abc", 30)];
    let kept = Filter {}.front_filter(&lines);
    assert_eq!(kept.len(), 2);
}

#[test]
fn front_filter_mostly_numeric_needs_more_than_half_digits() {
    let lines = vec![
        line(0, "12ab", 40),    // exactly half digits: kept
        line(1, "123a", 40),    // three quarters: dropped
        line(2, "  123 a  ", 90), // trimmed "123 a": 3 of 4 non-blank are digits: dropped
        line(3, "12 ab", 50),   // 2 of 4 non-blank: kept
    ];
    let kept = Filter {}.front_filter(&lines);
    assert_eq!(texts(&kept), vec!["12ab".to_string(), "12 ab".to_string()]);
}

#[test]
fn front_filter_blank_text_is_not_numeric() {
    let lines = vec![line(0, "     ", 50), line(1, "words", 50)];
    let kept = Filter {}.front_filter(&lines);
    assert_eq!(kept.len(), 2);
}

#[test]
fn front_filter_empty_text_has_zero_width() {
    // The empty line is short and dropped, but its zero width enters the mean.
    let lines = vec![line(0, "", 100), line(1, "abcd", 40), line(2, "wxyz", 12)];
    // Widths: 0, 10, 3; mean 13 / 3 = 4; 3 + 2 >= 4 keeps the last line.
    let kept = Filter {}.front_filter(&lines);
    assert_eq!(texts(&kept), vec!["abcd".to_string(), "wxyz".to_string()]);
}

#[test]
fn front_filter_keeps_order_and_is_a_subsequence() {
    let lines = vec![line(0, "first", 50), line(1, "9999", 40), line(2, "second", 60), line(3, "third", 50)];
    let kept = Filter {}.front_filter(&lines);
    let indices: Vec<usize> = kept.iter().map(|l| l.index).collect();
    assert_eq!(indices, vec![0, 2, 3]);
}

#[test]
fn back_filter_stops_at_first_single_line_formula() {
    let paragraphs = vec![
        paragraph("a + b in prose", vec![0, 1]),
        paragraph("plain", vec![2]),
        paragraph("x = 1", vec![3]),
        paragraph("after", vec![4, 5]),
    ];
    let kept = Filter {}.back_filter(paragraphs);
    assert_eq!(kept.len(), 2);
    assert_eq!(kept[0].text, "a + b in prose");
    assert_eq!(kept[0].lines, vec![0, 1]);
    assert_eq!(kept[1].text, "plain");
    assert_eq!(kept[1].font_size, 12);
}

#[test]
fn back_filter_keeps_everything_without_formula_lines() {
    let paragraphs = vec![paragraph("one", vec![0]), paragraph("(two) lines", vec![1, 2])];
    let kept = Filter {}.back_filter(paragraphs);
    assert_eq!(kept.len(), 2);
}

#[test]
fn back_filter_recognizes_unicode_math_symbols() {
    for symbol in ["\u{00b1}", "\u{00d7}", "\u{00f7}", "\u{2264}", "\u{2265}", "\u{2260}", "\u{221a}", "\u{221b}", "\u{221c}", "\u{2211}", "\u{220f}", "\u{222b}", "\u{2202}", "\u{221e}", "\u{03c0}", "\u{0394}", "^", "(", "]", "{"] {
        let paragraphs = vec![paragraph("body", vec![0]), paragraph(symbol, vec![1])];
        assert_eq!(Filter {}.back_filter(paragraphs).len(), 1, "symbol {}", symbol);
    }
    let paragraphs = vec![paragraph("body", vec![0]), paragraph("no math here.", vec![1])];
    assert_eq!(Filter {}.back_filter(paragraphs).len(), 2);
}

#[test]
fn back_filter_empty_when_first_is_formula() {
    let paragraphs = vec![paragraph("E = mc^2", vec![0]), paragraph("text", vec![1, 2])];
    assert!(Filter {}.back_filter(paragraphs).is_empty());
    assert!(Filter {}.back_filter(Vec::new()).is_empty());
}

#[test]
fn back_filter_twice_is_back_filter_once() {
    let make = || vec![paragraph("a", vec![0, 1]), paragraph("b", vec![2]), paragraph("1 < 2", vec![3]), paragraph("c", vec![4])];
    let once = Filter {}.back_filter(make());
    let twice = Filter {}.back_filter(Filter {}.back_filter(make()));
    let t1: Vec<String> = once.iter().map(|p| p.text.clone()).collect();
    let t2: Vec<String> = twice.iter().map(|p| p.text.clone()).collect();
    assert_eq!(t1, t2);
    assert_eq!(t1, vec!["a".to_string(), "b".to_string()]);
}

#[test]
fn single_line_means_exactly_one_line() {
    assert!(is_single_line(&paragraph("x", vec![3])));
    assert!(!is_single_line(&paragraph("x", vec![])));
    assert!(!is_single_line(&paragraph("x", vec![1, 2])));
}

#[test]
fn front_filter_trims_unicode_white_space() {
    // U+3000 and U+00A0 are white space: "123a" remains, three quarters digits.
    // U+200B is not white space: "\u{200b}\u{200b}12" has 2 digits of 4 non-blank characters.
    let lines = vec![
        line(0, "\u{3000}123a\u{00a0}", 60),
        line(1, "\u{200b}\u{200b}12", 40),
        line(2, "plain", 50),
    ];
    let kept = Filter {}.front_filter(&lines);
    let indices: Vec<usize> = kept.iter().map(|l| l.index).collect();
    assert_eq!(indices, vec![1, 2]);
}
