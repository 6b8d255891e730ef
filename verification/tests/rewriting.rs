use mypy_diff::index_map::IndexMap;
use mypy_diff::rewrite::{rewrite_text, RewriteError, Side};

fn map_of(pairs: &[(usize, usize)]) -> IndexMap {
    IndexMap::from_pairs(pairs.to_vec())
}

#[test]
fn missing_correspondence_becomes_sentinel() {
    // Original line 5 was touched by the edit: no entry, so the token
    // gets the sentinel, not a guessed number.
    let m = map_of(&[(1, 1), (2, 2)]);
    let out = rewrite_text("foo.py:5: error: bad\n", "foo.py", &m, Side::Original).unwrap();
    assert_eq!(out, "foo.py:5:_: error: bad");
}

#[test]
fn mapped_reference_carries_both_coordinates() {
    let m = map_of(&[(1, 1), (3, 2)]);
    let out = rewrite_text("foo.py:3: error: bad", "foo.py", &m, Side::Original).unwrap();
    assert_eq!(out, "foo.py:3:2: error: bad");
}

#[test]
fn edited_side_keeps_original_coordinate_first() {
    // The edited-side map is keyed by edited line numbers: line 2 of the
    // edit is line 3 of the original.
    let m = map_of(&[(1, 1), (2, 3)]);
    let out = rewrite_text("foo.py:2: error: bad", "foo.py", &m, Side::Edited).unwrap();
    assert_eq!(out, "foo.py:3:2: error: bad");
}

#[test]
fn edited_side_sentinel_goes_first() {
    let m = map_of(&[(1, 1)]);
    let out = rewrite_text("foo.py:2: error: bad", "foo.py", &m, Side::Edited).unwrap();
    assert_eq!(out, "foo.py:_:2: error: bad");
}

#[test]
fn non_matching_lines_are_dropped() {
    let m = map_of(&[(1, 1)]);
    let text = "Found 2 errors\nfoo.py:1: error: bad\nother.py:1: error: bad\n";
    let out = rewrite_text(text, "foo.py", &m, Side::Original).unwrap();
    assert_eq!(out, "foo.py:1:1: error: bad");
}

#[test]
fn empty_map_falls_back_to_identity() {
    // An unchanged file has no hunk and an empty map: every line keeps
    // its own number on both sides.
    let m = map_of(&[]);
    let out = rewrite_text("foo.py:7: note: hm", "foo.py", &m, Side::Original).unwrap();
    assert_eq!(out, "foo.py:7:7: note: hm");
}

#[test]
fn rewriting_is_idempotent() {
    let m = map_of(&[(1, 1), (3, 2)]);
    let text = "foo.py:1: error: a\nfoo.py:2: error: b\nbanner line\nfoo.py:3: note: c\n";
    let once = rewrite_text(text, "foo.py", &m, Side::Original).unwrap();
    let twice = rewrite_text(&once, "foo.py", &m, Side::Original).unwrap();
    assert_eq!(once, twice);
    assert_eq!(once, "foo.py:1:1: error: a\nfoo.py:2:_: error: b\nfoo.py:3:2: note: c");
}

#[test]
fn dual_lines_pass_through_unchanged() {
    let m = map_of(&[(1, 2)]);
    let out = rewrite_text("foo.py:4:9: error: x\nfoo.py:5:_: error: y", "foo.py", &m, Side::Original)
        .unwrap();
    assert_eq!(out, "foo.py:4:9: error: x\nfoo.py:5:_: error: y");
}

#[test]
fn path_separators_are_normalized() {
    let m = map_of(&[(3, 3)]);
    let out = rewrite_text("pkg\\mod.py:3: error: bad", "pkg/mod.py", &m, Side::Original).unwrap();
    assert_eq!(out, "pkg\\mod.py:3:3: error: bad");
}

#[test]
fn leading_zeros_read_as_the_same_number() {
    let m = map_of(&[(5, 6)]);
    let out = rewrite_text("foo.py:05: error: bad", "foo.py", &m, Side::Original).unwrap();
    assert_eq!(out, "foo.py:5:6: error: bad");
}

#[test]
fn oversized_number_is_rejected() {
    let m = map_of(&[(1, 1)]);
    let r = rewrite_text(
        "foo.py:99999999999999999999999999: error: bad",
        "foo.py",
        &m,
        Side::Original,
    );
    assert_eq!(r, Err(RewriteError::NumberTooLarge));
}

#[test]
fn number_without_closing_colon_is_dropped() {
    let m = map_of(&[(1, 1)]);
    let out = rewrite_text("foo.py:12 error", "foo.py", &m, Side::Original).unwrap();
    assert_eq!(out, "");
}
