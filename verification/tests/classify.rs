//! Scenario tests: whole passes over parsed documents, driven through the
//! real parser and the real dictionary.

use typspell::check::{check, check_document};
use typspell::checker::Checker;
use typspell::tree::{parse_document, Node, NodeKind};

fn dict(words: &[&str]) -> zspell::Dictionary {
    let mut dic = String::new();
    dic.push_str(&format!("{}\n", words.len()));
    for w in words {
        dic.push_str(w);
        dic.push('\n');
    }
    zspell::builder()
        .config_str("SET UTF-8\n")
        .dict_str(&dic)
        .build()
        .unwrap()
}

fn leaf(kind: NodeKind, text: &str) -> Node {
    Node { kind, text: text.to_string(), children: Vec::new() }
}

fn inner(kind: NodeKind, children: Vec<Node>) -> Node {
    Node { kind, text: String::new(), children }
}

#[test]
fn one_misspelling_with_positions() {
    let d = dict(&["The", "cat", "sat", "Tech"]);
    let checker = check_document(&d, "Teh cat sat.".to_string(), "doc.typ".to_string(), None);
    assert_eq!(checker.diagnostics.len(), 1);
    let diagnostic = &checker.diagnostics[0];
    assert_eq!(diagnostic.line_start, 1);
    assert_eq!(diagnostic.column_start, 1);
    assert_eq!(diagnostic.line_end, 1);
    assert_eq!(diagnostic.column_end, 4);
    assert_eq!(diagnostic.start, 0);
    assert_eq!(diagnostic.end, 3);
    assert!(!diagnostic.suggestions.is_empty());
    assert_eq!(diagnostic.suggestions, vec!["Tech".to_string()]);
}

#[test]
fn valid_text_gives_no_diagnostics() {
    let d = dict(&["The", "cat", "sat"]);
    let checker = check_document(&d, "The cat sat.".to_string(), "doc.typ".to_string(), None);
    assert_eq!(checker.diagnostics.len(), 0);
}

#[test]
fn abbreviation_in_dictionary_absorbs_period() {
    // "Dr." is a dictionary entry, bare "Dr" is not: the period must be
    // folded into the word and the combined token checked as one unit.
    let d = dict(&["Dr.", "Foo"]);
    let checker = check_document(&d, "Dr. Foo".to_string(), "doc.typ".to_string(), None);
    assert_eq!(checker.diagnostics.len(), 0);
}

#[test]
fn abbreviation_not_in_dictionary_ends_word() {
    // "Dr." is no dictionary entry: the period ends the word, so the
    // checked token is "Dr" alone, which is misspelled here.
    let d = dict(&["Foo"]);
    let checker = check_document(&d, "Dr. Foo".to_string(), "doc.typ".to_string(), None);
    assert_eq!(checker.diagnostics.len(), 1);
    let diagnostic = &checker.diagnostics[0];
    assert_eq!(diagnostic.start, 0);
    assert_eq!(diagnostic.end, 2);
    assert_eq!(diagnostic.column_start, 1);
    assert_eq!(diagnostic.column_end, 3);
}

#[test]
fn equation_content_is_never_checked() {
    let d = dict(&[]);
    let checker = check_document(&d, "$ teh xyzzy $".to_string(), "doc.typ".to_string(), None);
    assert_eq!(checker.diagnostics.len(), 0);
}

#[test]
fn code_construct_is_never_checked() {
    let d = dict(&[]);
    let checker = check_document(&d, "#let teh = 1".to_string(), "doc.typ".to_string(), None);
    assert_eq!(checker.diagnostics.len(), 0);
}

#[test]
fn markup_inside_code_reenters_prose() {
    let d = dict(&[]);
    let checker = check_document(&d, "#let x = [teh]".to_string(), "doc.typ".to_string(), None);
    assert_eq!(checker.diagnostics.len(), 1);
}

#[test]
fn positions_across_lines_and_multibyte() {
    // Columns count characters, not bytes: the accented word before the
    // misspelling must not shift the reported columns.
    let d = dict(&["Thé", "cat", "sat", "mat"]);
    let checker = check_document(
        &d,
        "Thé cat\nsat teh mat.".to_string(),
        "doc.typ".to_string(),
        None,
    );
    assert_eq!(checker.diagnostics.len(), 1);
    let diagnostic = &checker.diagnostics[0];
    assert_eq!(diagnostic.line_start, 2);
    assert_eq!(diagnostic.column_start, 5);
    assert_eq!(diagnostic.line_end, 2);
    assert_eq!(diagnostic.column_end, 8);
}

#[test]
fn rerun_reports_identical_diagnostics() {
    let d = dict(&["The", "cat", "sat", "Tech"]);
    let text = "Teh cat\nsat teh.";
    let a = check_document(&d, text.to_string(), "doc.typ".to_string(), None);
    let b = check_document(&d, text.to_string(), "doc.typ".to_string(), None);
    assert_eq!(a.diagnostics.len(), b.diagnostics.len());
    for (x, y) in a.diagnostics.iter().zip(b.diagnostics.iter()) {
        assert_eq!(x.line_start, y.line_start);
        assert_eq!(x.column_start, y.column_start);
        assert_eq!(x.line_end, y.line_end);
        assert_eq!(x.column_end, y.column_end);
        assert_eq!(x.start, y.start);
        assert_eq!(x.end, y.end);
        assert_eq!(x.suggestions, y.suggestions);
    }
}

#[test]
fn parse_covers_whole_text() {
    // The tracker's cursor counts every character exactly once, so after a
    // full pass it stands at the end of the text.
    let d = dict(&[]);
    let text = "= Heading\nSome *prose*, #let x = 1, and $ math $.\n";
    let checker = check_document(&d, text.to_string(), "doc.typ".to_string(), None);
    assert_eq!(checker.cursor, text.chars().count());
}

#[test]
fn hand_built_code_subtree_is_skipped() {
    let d = dict(&[]);
    let tree = inner(NodeKind::CodeConstruct, vec![leaf(NodeKind::Text, "teh")]);
    let mut checker = Checker::new(&d, "teh".to_string(), "doc.typ".to_string(), None);
    check(&tree, &mut checker);
    assert_eq!(checker.diagnostics.len(), 0);
    assert_eq!(checker.cursor, 3);
}

#[test]
fn hand_built_markup_reentry_is_checked() {
    let d = dict(&[]);
    let tree = inner(
        NodeKind::CodeConstruct,
        vec![inner(NodeKind::Markup, vec![leaf(NodeKind::Text, "teh")])],
    );
    let mut checker = Checker::new(&d, "teh".to_string(), "doc.typ".to_string(), None);
    check(&tree, &mut checker);
    assert_eq!(checker.diagnostics.len(), 1);
}

#[test]
fn hand_built_opaque_subtree_is_skipped() {
    let d = dict(&[]);
    let tree = inner(NodeKind::Opaque, vec![leaf(NodeKind::Text, "teh xyzzy")]);
    let mut checker = Checker::new(&d, "teh xyzzy".to_string(), "doc.typ".to_string(), None);
    check(&tree, &mut checker);
    assert_eq!(checker.diagnostics.len(), 0);
    assert_eq!(checker.cursor, 9);
}

fn collect_text(n: &Node, out: &mut String) {
    out.push_str(&n.text);
    for c in &n.children {
        collect_text(c, out);
    }
}

#[test]
fn parsed_tree_text_matches_source() {
    let text = "= Heading\nSome *prose*, #let x = 1, and $ math $.\n";
    let root = parse_document(text);
    let mut rebuilt = String::new();
    collect_text(&root, &mut rebuilt);
    assert_eq!(rebuilt, text);
}
