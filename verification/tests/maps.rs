use mypy_diff::hunk::{classify_line, parse_hunk, LineClass};
use mypy_diff::index_map::calc_index_map;

#[test]
fn classify_line_by_first_character() {
    assert_eq!(classify_line("+x"), LineClass::Added);
    assert_eq!(classify_line("-x"), LineClass::Removed);
    assert_eq!(classify_line(" x"), LineClass::Context);
    assert_eq!(classify_line("x"), LineClass::Context);
    assert_eq!(classify_line(""), LineClass::Context);
}

#[test]
fn parse_hunk_skips_headers_and_trailing_artifact() {
    let diff = "diff --git a/f.py b/f.py\n--- a/f.py\n+++ b/f.py\n@@ -1,3 +1,3 @@\n a\n-b\n+B\n c\n";
    let cls = parse_hunk(diff);
    assert_eq!(
        cls,
        vec![
            LineClass::Context,
            LineClass::Removed,
            LineClass::Added,
            LineClass::Context
        ]
    );
}

#[test]
fn parse_hunk_without_header_is_empty() {
    assert_eq!(parse_hunk(""), vec![]);
    assert_eq!(parse_hunk("no hunk here\nat all\n"), vec![]);
}

#[test]
fn context_only_diff_gives_identity_map() {
    let diff = "@@ -1,3 +1,3 @@\n a\n b\n c\n";
    let (fwd, bwd) = calc_index_map(diff);
    assert_eq!(fwd.len(), 3);
    assert_eq!(bwd.len(), 3);
    for k in 1..=3usize {
        assert_eq!(fwd.get(k), Some(k));
        assert_eq!(bwd.get(k), Some(k));
    }
    assert_eq!(fwd.get(4), None);
}

#[test]
fn removed_line_shifts_later_correspondences() {
    // Line 2 of the original removed, nothing added: original line 2 has
    // no entry, and original line 3 corresponds to edited line 2.
    let diff = "@@ -1,3 +1,2 @@\n a\n-b\n c\n";
    let (fwd, bwd) = calc_index_map(diff);
    assert_eq!(fwd.get(1), Some(1));
    assert_eq!(fwd.get(2), None);
    assert_eq!(fwd.get(3), Some(2));
    assert_eq!(bwd.get(1), Some(1));
    assert_eq!(bwd.get(2), Some(3));
    assert_eq!(bwd.get(3), None);
}

#[test]
fn forward_and_backward_maps_are_inverses() {
    let diff = "@@ -1,6 +1,6 @@\n a\n-b\n+B\n c\n d\n-e\n+E\n f\n";
    let (fwd, bwd) = calc_index_map(diff);
    for k in 1..=6usize {
        if let Some(v) = fwd.get(k) {
            assert_eq!(bwd.get(v), Some(k));
        }
        if let Some(v) = bwd.get(k) {
            assert_eq!(fwd.get(v), Some(k));
        }
    }
    assert_eq!(fwd.get(1), Some(1));
    assert_eq!(fwd.get(2), None);
    assert_eq!(fwd.get(3), Some(3));
    assert_eq!(fwd.get(4), Some(4));
    assert_eq!(fwd.get(5), None);
    assert_eq!(fwd.get(6), Some(6));
}

#[test]
fn added_lines_shift_edited_numbers() {
    let diff = "@@ -1,2 +1,3 @@\n a\n+inserted\n b\n";
    let (fwd, bwd) = calc_index_map(diff);
    assert_eq!(fwd.get(1), Some(1));
    assert_eq!(fwd.get(2), Some(3));
    assert_eq!(bwd.get(2), None);
    assert_eq!(bwd.get(3), Some(2));
}

#[test]
fn only_the_first_header_is_discarded() {
    // A later line starting with `@@` is an ordinary context line.
    let diff = "@@ -1,2 +1,2 @@\n a\n@@ b\n";
    let cls = parse_hunk(diff);
    assert_eq!(cls, vec![LineClass::Context, LineClass::Context]);
    let (fwd, _) = calc_index_map(diff);
    assert_eq!(fwd.get(1), Some(1));
    assert_eq!(fwd.get(2), Some(2));
}

#[test]
fn no_hunk_header_yields_empty_maps() {
    let (fwd, bwd) = calc_index_map("");
    assert!(fwd.is_empty());
    assert!(bwd.is_empty());
}
