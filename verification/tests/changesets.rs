use mypy_diff::diff::{compute_changeset, render_changeset, DiffOp};
use mypy_diff::text::{join_lines, split_lines, usize_to_string};

const RESET: &str = "\u{1b}[0m";
const GREEN: &str = "\u{1b}[32m";
const RED: &str = "\u{1b}[31m";

#[test]
fn identical_texts_yield_only_same_lines() {
    let ops = compute_changeset("a\nb\nc", "a\nb\nc");
    assert_eq!(
        ops,
        vec![
            DiffOp::Same("a".to_string()),
            DiffOp::Same("b".to_string()),
            DiffOp::Same("c".to_string())
        ]
    );
    let rendered = render_changeset(&ops);
    assert!(!rendered.contains(GREEN));
    assert!(!rendered.contains(RED));
}

#[test]
fn one_changed_line_is_one_remove_and_one_add() {
    let ops = compute_changeset("a\nb\nc", "a\nB\nc");
    assert_eq!(
        ops,
        vec![
            DiffOp::Same("a".to_string()),
            DiffOp::Remove("b".to_string()),
            DiffOp::Add("B".to_string()),
            DiffOp::Same("c".to_string())
        ]
    );
}

#[test]
fn pure_insertion_and_deletion() {
    let ops = compute_changeset("a\nc", "a\nb\nc");
    assert_eq!(
        ops,
        vec![
            DiffOp::Same("a".to_string()),
            DiffOp::Add("b".to_string()),
            DiffOp::Same("c".to_string())
        ]
    );
    let ops = compute_changeset("a\nb\nc", "a\nc");
    assert_eq!(
        ops,
        vec![
            DiffOp::Same("a".to_string()),
            DiffOp::Remove("b".to_string()),
            DiffOp::Same("c".to_string())
        ]
    );
}

#[test]
fn rendering_styles_each_class() {
    let ops = vec![
        DiffOp::Same("s".to_string()),
        DiffOp::Add("plus".to_string()),
        DiffOp::Remove("minus".to_string()),
    ];
    let rendered = render_changeset(&ops);
    let expected = format!(
        "{RESET}s\n{GREEN}+plus\n{RED}-minus\n{RESET}",
    );
    assert_eq!(rendered, expected);
}

#[test]
fn empty_texts_compare_as_one_empty_same_line() {
    let ops = compute_changeset("", "");
    assert_eq!(ops, vec![DiffOp::Same(String::new())]);
}

#[test]
fn split_and_join_are_inverse_on_texts() {
    let text = "one\ntwo\n\nthree";
    let lines = split_lines(text);
    assert_eq!(lines, vec!["one", "two", "", "three"]);
    assert_eq!(join_lines(&lines), text);
}

#[test]
fn trailing_newline_yields_trailing_empty_line() {
    let lines = split_lines("a\n");
    assert_eq!(lines, vec!["a", ""]);
    assert_eq!(split_lines(""), vec![""]);
}

#[test]
fn numbers_print_in_canonical_decimal() {
    assert_eq!(usize_to_string(0), "0");
    assert_eq!(usize_to_string(7), "7");
    assert_eq!(usize_to_string(107), "107");
    assert_eq!(usize_to_string(usize::MAX), usize::MAX.to_string());
}
