//! Tests of the position tracker's operations and of the two renderers.

use typspell::checker::Checker;
use typspell::output::{output_plain, output_pretty, usize_to_string};

fn dict(words: &[&str]) -> zspell::Dictionary {
    let mut dic = String::new();
    dic.push_str(&format!("{}\n", words.len()));
    for w in words {
        dic.push_str(w);
        dic.push('\n');
    }
    zspell::builder()
        .config_str("SET UTF-8\n")
        .dict_str(&dic)
        .build()
        .unwrap()
}

#[test]
fn skip_advances_cursor_line_and_column() {
    let d = dict(&[]);
    let mut checker = Checker::new(&d, "ab\ncd".to_string(), "f.typ".to_string(), None);
    assert_eq!((checker.cursor, checker.line, checker.column), (0, 1, 1));
    checker.skip(2);
    assert_eq!((checker.cursor, checker.line, checker.column), (2, 1, 3));
    checker.skip(1);
    assert_eq!((checker.cursor, checker.line, checker.column), (3, 2, 1));
    checker.skip(2);
    assert_eq!((checker.cursor, checker.line, checker.column), (5, 2, 3));
    assert!(checker.diagnostics.is_empty());
}

#[test]
fn valid_word_queries_without_moving() {
    let d = dict(&["cat"]);
    let mut checker = Checker::new(&d, "no cat".to_string(), "f.typ".to_string(), None);
    checker.skip(3);
    assert!(checker.valid_word(3));
    assert_eq!(checker.cursor, 3);
    let checker2 = Checker::new(&d, "dog".to_string(), "f.typ".to_string(), None);
    assert!(!checker2.valid_word(3));
}

#[test]
fn check_records_misspelling_with_end_position() {
    let d = dict(&["cat"]);
    let mut checker = Checker::new(&d, "dog cat".to_string(), "f.typ".to_string(), None);
    checker.check(3);
    checker.skip(1);
    checker.check(3);
    assert_eq!(checker.diagnostics.len(), 1);
    let diagnostic = &checker.diagnostics[0];
    assert_eq!(diagnostic.line_start, 1);
    assert_eq!(diagnostic.column_start, 1);
    assert_eq!(diagnostic.column_end, 4);
    assert_eq!(diagnostic.start, 0);
    assert_eq!(diagnostic.end, 3);
}

#[test]
fn decimal_formatting() {
    assert_eq!(usize_to_string(0), "0");
    assert_eq!(usize_to_string(7), "7");
    assert_eq!(usize_to_string(907), "907");
    assert_eq!(usize_to_string(120034), "120034");
}

#[test]
fn plain_line_format_exact() {
    let suggestions = vec!["a".to_string(), "bc".to_string()];
    let line = output_plain("f.typ", 1, 2, 3, 44, &suggestions);
    assert_eq!(line, "f.typ 1:2-3:44 info a, bc");
}

#[test]
fn plain_line_no_suggestions() {
    let line = output_plain("f.typ", 9, 8, 7, 6, &Vec::new());
    assert_eq!(line, "f.typ 9:8-7:6 info ");
}

#[test]
fn plain_line_single_suggestion() {
    let suggestions = vec!["word".to_string()];
    let line = output_plain("f.typ", 1, 1, 1, 4, &suggestions);
    assert_eq!(line, "f.typ 1:1-1:4 info word");
}

#[test]
fn pretty_window_never_splits_multibyte() {
    // A long single line of two-byte characters: every candidate cut of
    // the five-character window falls between characters, never inside
    // one, so rendering must neither panic nor truncate a character.
    let mut text = String::new();
    for _ in 0..100 {
        text.push('é');
    }
    text.push_str("teh");
    for _ in 0..97 {
        text.push('é');
    }
    let rendered = output_pretty("f.typ", 1, &text, 100, 103, 5, &vec!["the".to_string()]);
    assert!(rendered.contains("Unknown word"));
    assert!(rendered.contains("teh"));
}

#[test]
fn pretty_window_stops_at_line_breaks() {
    let text = "first\nteh\nlast";
    let rendered = output_pretty("f.typ", 2, text, 6, 9, 80, &vec!["the".to_string()]);
    assert!(rendered.contains("teh"));
    assert!(!rendered.contains("first"));
    assert!(!rendered.contains("last"));
}

#[test]
fn render_dispatches_on_style() {
    let d = dict(&["cat"]);
    let mut plain = Checker::new(&d, "dog".to_string(), "f.typ".to_string(), None);
    plain.check(3);
    assert_eq!(plain.diagnostics.len(), 1);
    let line = plain.render(&plain.diagnostics[0]);
    assert!(line.starts_with("f.typ 1:1-1:4 info"));

    let mut pretty = Checker::new(&d, "dog".to_string(), "f.typ".to_string(), Some(80));
    pretty.check(3);
    assert_eq!(pretty.diagnostics.len(), 1);
    let snippet = pretty.render(&pretty.diagnostics[0]);
    assert!(snippet.contains("Unknown word"));
    assert!(snippet.contains("dog"));
}
