use pareto_r::lines::classify;
use pareto_r::lines::LineStep;

#[test]
fn nothing_read_is_the_end() {
    assert_eq!(classify(""), LineStep::End);
}

#[test]
fn comments_are_skipped() {
    assert_eq!(classify("# tag x y\n"), LineStep::Skip);
    assert_eq!(classify("#"), LineStep::Skip);
    assert_eq!(classify("#\n"), LineStep::Skip);
}

#[test]
fn a_bare_line_end_is_skipped() {
    assert_eq!(classify("\n"), LineStep::Skip);
}

#[test]
fn blank_lines_are_skipped() {
    assert_eq!(classify(" "), LineStep::Skip);
    assert_eq!(classify("\r\n"), LineStep::Skip);
    assert_eq!(classify(" \n"), LineStep::Skip);
    assert_eq!(classify(" \t \r\n"), LineStep::Skip);
    assert_eq!(classify("\u{a0}\u{2003}\n"), LineStep::Skip);
}

#[test]
fn a_single_byte_of_data_is_taken() {
    assert_eq!(classify("5"), LineStep::Take("5".to_string()));
    assert_eq!(classify("7\n"), LineStep::Take("7".to_string()));
}

#[test]
fn a_single_wide_character_is_taken() {
    assert_eq!(classify("\u{e9}"), LineStep::Take("\u{e9}".to_string()));
}

#[test]
fn other_lines_are_taken_trimmed() {
    assert_eq!(classify("  12 3 4 \t\r\n"), LineStep::Take("12 3 4".to_string()));
    assert_eq!(classify("12 3 4"), LineStep::Take("12 3 4".to_string()));
    assert_eq!(classify(" # not a comment\n"), LineStep::Take("# not a comment".to_string()));
    assert_eq!(classify("\u{a0}5 6\u{2003}\n"), LineStep::Take("5 6".to_string()));
}

#[test]
fn taken_text_is_never_empty() {
    let lines = ["", "\n", " ", "x", " x ", "#", " #", "\t\n", "1 2 3\n", "\r\n"];
    for line in lines {
        if let LineStep::Take(text) = classify(line) {
            assert!(!text.is_empty());
            assert_eq!(text, line.trim());
        }
    }
}
