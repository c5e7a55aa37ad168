use prompt_store::text::{check_blank, chars_of, find_hits, split_lines, to_lower};

#[test]
fn split_lines_drops_trailing_newline() {
    let lines = split_lines("cat\nconcatenate\n");
    assert_eq!(lines, vec!["cat".to_string(), "concatenate".to_string()]);
}

#[test]
fn split_lines_strips_carriage_returns_only_before_newlines() {
    // a terminated segment loses its '\r'; the final unterminated one keeps it
    let lines = split_lines("a\r\nb\r");
    assert_eq!(lines, vec!["a".to_string(), "b\r".to_string()]);
    assert_eq!(split_lines(""), Vec::<String>::new());
}

#[test]
fn find_hits_reports_every_occurrence() {
    let line = chars_of("concatenate");
    let q = chars_of("cat");
    assert_eq!(find_hits(&line, &q), vec![3]);
    let line2 = chars_of("aaa");
    let q2 = chars_of("aa");
    assert_eq!(find_hits(&line2, &q2), vec![0, 1]);
}

#[test]
fn blank_detects_whitespace_only() {
    assert!(check_blank(""));
    assert!(check_blank("   "));
    assert!(!check_blank(" a "));
}

#[test]
fn lowercase_folds_case() {
    assert_eq!(to_lower("CaT"), "cat");
}
