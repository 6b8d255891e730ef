use mypy_diff::diff::{compute_changeset, DiffOp};
use mypy_diff::index_map::calc_index_map;
use mypy_diff::rewrite::{rewrite_text, Side};

// One file where a line was inserted at the top: every diagnostic below
// the insertion shifts by one line, and the comparison must still pair
// the unchanged diagnostics up.
#[test]
fn shifted_diagnostics_compare_as_unchanged() {
    let diff = "diff --git a/foo.py b/foo.py\n@@ -1,2 +1,3 @@\n+import os\n x = 1\n y: int = \"s\"\n";
    let (fwd, bwd) = calc_index_map(diff);

    let orig_diag = "foo.py:2: error: type mismatch\nFound 1 error\n";
    let edit_diag = "foo.py:3: error: type mismatch\nFound 1 error\n";

    let orig_rw = rewrite_text(orig_diag, "foo.py", &fwd, Side::Original).unwrap();
    let edit_rw = rewrite_text(edit_diag, "foo.py", &bwd, Side::Edited).unwrap();

    assert_eq!(orig_rw, "foo.py:2:3: error: type mismatch");
    assert_eq!(edit_rw, "foo.py:2:3: error: type mismatch");

    let ops = compute_changeset(&orig_rw, &edit_rw);
    assert_eq!(
        ops,
        vec![DiffOp::Same("foo.py:2:3: error: type mismatch".to_string())]
    );
}

// A diagnostic on an edited line has no correspondence: the two sides
// disagree and the comparison shows a removal and an addition.
#[test]
fn touched_line_diagnostics_compare_as_changed() {
    let diff = "@@ -1,2 +1,2 @@\n a = 1\n-b: int = \"x\"\n+b: str = 3\n";
    let (fwd, bwd) = calc_index_map(diff);

    let orig_rw =
        rewrite_text("foo.py:2: error: str not int\n", "foo.py", &fwd, Side::Original).unwrap();
    let edit_rw =
        rewrite_text("foo.py:2: error: int not str\n", "foo.py", &bwd, Side::Edited).unwrap();

    assert_eq!(orig_rw, "foo.py:2:_: error: str not int");
    assert_eq!(edit_rw, "foo.py:_:2: error: int not str");

    let ops = compute_changeset(&orig_rw, &edit_rw);
    assert_eq!(
        ops,
        vec![
            DiffOp::Remove("foo.py:2:_: error: str not int".to_string()),
            DiffOp::Add("foo.py:_:2: error: int not str".to_string())
        ]
    );
}
