//! The line-level changeset of two texts and its rendering: a minimal
//! edit script under the longest-common-subsequence measure, each line
//! classified as unchanged, added or removed, rendered with SGR styling.

use vstd::prelude::*;
use vstd::string::*;
use crate::text::{spec_lines, views_of, split_lines};

verus! {

/// One operation of a changeset: a line present in both texts, a line
/// present only in the edited text, or a line present only in the
/// original text.
#[derive(Debug, PartialEq, Eq)]
pub enum DiffOp {
    Same(String),
    Add(String),
    Remove(String),
}

/// The contribution of one operation to the original text.
pub open spec fn orig_of(x: DiffOp) -> Seq<Seq<char>> {
    match x {
        DiffOp::Same(t) => seq![t@],
        DiffOp::Remove(t) => seq![t@],
        DiffOp::Add(_) => Seq::<Seq<char>>::empty(),
    }
}

/// The contribution of one operation to the edited text.
pub open spec fn edit_of(x: DiffOp) -> Seq<Seq<char>> {
    match x {
        DiffOp::Same(t) => seq![t@],
        DiffOp::Add(t) => seq![t@],
        DiffOp::Remove(_) => Seq::<Seq<char>>::empty(),
    }
}

/// The original text's lines: those of the unchanged and removed operations.
pub open spec fn ops_orig(ops: Seq<DiffOp>) -> Seq<Seq<char>>
    decreases ops.len(),
{
    if ops.len() == 0 {
        Seq::<Seq<char>>::empty()
    } else {
        orig_of(ops[0]) + ops_orig(ops.skip(1))
    }
}

/// The edited text's lines: those of the unchanged and added operations.
pub open spec fn ops_edit(ops: Seq<DiffOp>) -> Seq<Seq<char>>
    decreases ops.len(),
{
    if ops.len() == 0 {
        Seq::<Seq<char>>::empty()
    } else {
        edit_of(ops[0]) + ops_edit(ops.skip(1))
    }
}

/// How many operations are unchanged lines.
pub open spec fn count_same(ops: Seq<DiffOp>) -> int
    decreases ops.len(),
{
    if ops.len() == 0 {
        0
    } else {
        (if ops[0] is Same {
            1int
        } else {
            0int
        }) + count_same(ops.skip(1))
    }
}

/// How many operations are added lines.
pub open spec fn count_add(ops: Seq<DiffOp>) -> int
    decreases ops.len(),
{
    if ops.len() == 0 {
        0
    } else {
        (if ops[0] is Add {
            1int
        } else {
            0int
        }) + count_add(ops.skip(1))
    }
}

/// How many operations are removed lines.
pub open spec fn count_remove(ops: Seq<DiffOp>) -> int
    decreases ops.len(),
{
    if ops.len() == 0 {
        0
    } else {
        (if ops[0] is Remove {
            1int
        } else {
            0int
        }) + count_remove(ops.skip(1))
    }
}

/// The length of a longest common subsequence of two line sequences.
pub open spec fn spec_lcs(a: Seq<Seq<char>>, b: Seq<Seq<char>>) -> int
    decreases a.len(), b.len(),
{
    if a.len() == 0 || b.len() == 0 {
        0
    } else if a[0] == b[0] {
        1 + spec_lcs(a.skip(1), b.skip(1))
    } else {
        let x = spec_lcs(a.skip(1), b);
        let y = spec_lcs(a, b.skip(1));
        if x >= y {
            x
        } else {
            y
        }
    }
}

/// The common-subsequence length is bounded by both lengths.
pub proof fn lemma_lcs_le(a: Seq<Seq<char>>, b: Seq<Seq<char>>)
    ensures
        0 <= spec_lcs(a, b),
        spec_lcs(a, b) <= a.len(),
        spec_lcs(a, b) <= b.len(),
    decreases a.len(), b.len(),
{
    if a.len() == 0 || b.len() == 0 {
    } else if a[0] == b[0] {
        lemma_lcs_le(a.skip(1), b.skip(1));
    } else {
        lemma_lcs_le(a.skip(1), b);
        lemma_lcs_le(a, b.skip(1));
    }
}

/// A sequence is its own longest common subsequence.
pub proof fn lemma_lcs_refl(l: Seq<Seq<char>>)
    ensures
        spec_lcs(l, l) == l.len(),
    decreases l.len(),
{
    if l.len() == 0 {
    } else {
        lemma_lcs_refl(l.skip(1));
    }
}

/// Appending an operation appends its contributions.
proof fn lemma_ops_push(s: Seq<DiffOp>, x: DiffOp)
    ensures
        ops_orig(s.push(x)) == ops_orig(s) + orig_of(x),
        ops_edit(s.push(x)) == ops_edit(s) + edit_of(x),
        count_same(s.push(x)) == count_same(s) + (if x is Same {
            1int
        } else {
            0int
        }),
    decreases s.len(),
{
    if s.len() == 0 {
        assert(s.push(x) =~= seq![x]);
        assert(seq![x].skip(1) =~= Seq::<DiffOp>::empty());
        assert(ops_orig(seq![x]) == orig_of(x) + ops_orig(Seq::<DiffOp>::empty()));
        assert(ops_edit(seq![x]) == edit_of(x) + ops_edit(Seq::<DiffOp>::empty()));
        assert(count_same(seq![x]) == (if x is Same {
            1int
        } else {
            0int
        }) + count_same(Seq::<DiffOp>::empty()));
        assert(orig_of(x) + Seq::<Seq<char>>::empty() =~~= orig_of(x));
        assert(edit_of(x) + Seq::<Seq<char>>::empty() =~~= edit_of(x));
        assert(ops_orig(s) + orig_of(x) =~~= orig_of(x));
        assert(ops_edit(s) + edit_of(x) =~~= edit_of(x));
    } else {
        lemma_ops_push(s.skip(1), x);
        assert(s.push(x)[0] == s[0]);
        assert(s.push(x).skip(1) =~= s.skip(1).push(x));
        assert(orig_of(s[0]) + (ops_orig(s.skip(1)) + orig_of(x)) =~~= (orig_of(s[0])
            + ops_orig(s.skip(1))) + orig_of(x));
        assert(edit_of(s[0]) + (ops_edit(s.skip(1)) + edit_of(x)) =~~= (edit_of(s[0])
            + ops_edit(s.skip(1))) + edit_of(x));
    }
}

/// The original text has one line per unchanged or removed operation, the
/// edited text one per unchanged or added operation.
pub proof fn lemma_counts(ops: Seq<DiffOp>)
    ensures
        ops_orig(ops).len() == count_same(ops) + count_remove(ops),
        ops_edit(ops).len() == count_same(ops) + count_add(ops),
        count_same(ops) >= 0,
        count_add(ops) >= 0,
        count_remove(ops) >= 0,
    decreases ops.len(),
{
    if ops.len() == 0 {
    } else {
        lemma_counts(ops.skip(1));
    }
}

/// A changeset without added and without removed operations is made of
/// unchanged operations alone.
proof fn lemma_all_same(ops: Seq<DiffOp>)
    requires
        count_add(ops) == 0,
        count_remove(ops) == 0,
    ensures
        forall|i: int| 0 <= i < ops.len() ==> ops[i] is Same,
    decreases ops.len(),
{
    if ops.len() == 0 {
    } else {
        lemma_counts(ops.skip(1));
        assert(ops[0] is Same);
        lemma_all_same(ops.skip(1));
        assert(forall|i: int| 1 <= i < ops.len() ==> ops[i] == ops.skip(1)[i - 1]);
    }
}

/// Two identical texts yield a changeset of unchanged lines alone: a
/// changeset that reproduces the same lines on both sides with as many
/// unchanged operations as the text has lines holds no other operation.
pub proof fn lemma_identical_texts_all_same(ops: Seq<DiffOp>, l: Seq<Seq<char>>)
    requires
        ops_orig(ops) == l,
        ops_edit(ops) == l,
        count_same(ops) == spec_lcs(l, l),
    ensures
        forall|i: int| 0 <= i < ops.len() ==> ops[i] is Same,
{
    lemma_lcs_refl(l);
    lemma_counts(ops);
    lemma_all_same(ops);
}

/// True when `x@` equals `y@`.
fn string_eq(x: &String, y: &String) -> (r: bool)
    ensures
        r == (x@ == y@),
{
    x.eq(y)
}

/// True when each entry of the row is the common-subsequence length of
/// the original suffix at `i` and the edited suffix the entry's position
/// encodes: entry `u` speaks of the suffix starting at `b.len() - u`.
pub open spec fn row_ok(row: Seq<usize>, i: int, a: Seq<Seq<char>>, b: Seq<Seq<char>>) -> bool {
    row.len() == b.len() + 1 && forall|u: int|
        0 <= u < row.len() ==> #[trigger] row[u] == spec_lcs(a.skip(i), b.skip(b.len() - u))
}

/// True when row `r` of the table speaks of the original suffix starting
/// at `a.len() - r`.
pub open spec fn rows_ok(rows: Seq<Vec<usize>>, a: Seq<Seq<char>>, b: Seq<Seq<char>>) -> bool {
    forall|r: int| 0 <= r < rows.len() ==> row_ok((#[trigger] rows[r])@, a.len() - r, a, b)
}

/// Computes the changeset of two line sequences: a minimal edit script
/// whose unchanged and removed lines reproduce the original and whose
/// unchanged and added lines reproduce the edit, with as many unchanged
/// operations as a longest common subsequence has elements. At each
/// divergence removals come before additions.
pub fn diff_lines(a: &Vec<String>, b: &Vec<String>) -> (ops: Vec<DiffOp>)
    ensures
        ops_orig(ops@) == views_of(a@),
        ops_edit(ops@) == views_of(b@),
        count_same(ops@) == spec_lcs(views_of(a@), views_of(b@)),
{
    let ghost va = views_of(a@);
    let ghost vb = views_of(b@);
    let n: usize = a.len();
    let m: usize = b.len();

    let mut rows: Vec<Vec<usize>> = Vec::new();
    let mut zrow: Vec<usize> = Vec::new();
    zrow.push(0);
    let mut u0: usize = 0;
    while u0 < m
        invariant
            u0 <= m,
            m == vb.len(),
            zrow@.len() == u0 + 1,
            forall|u: int| 0 <= u < zrow@.len() ==> #[trigger] zrow@[u] == 0,
        decreases m - u0,
    {
        zrow.push(0);
        u0 = u0 + 1;
    }
    proof {
        assert(va.skip(n as int).len() == 0);
        assert forall|u: int| 0 <= u < zrow@.len() implies #[trigger] zrow@[u] == spec_lcs(
            va.skip(n as int),
            vb.skip(vb.len() - u),
        ) by {
            assert(va.skip(n as int).len() == 0);
        }
        assert(row_ok(zrow@, n as int, va, vb));
    }
    rows.push(zrow);

    let mut t: usize = 0;
    while t < n
        invariant
            t <= n,
            n == va.len(),
            m == vb.len(),
            va == views_of(a@),
            vb == views_of(b@),
            a@.len() == n,
            b@.len() == m,
            rows@.len() == t + 1,
            rows_ok(rows@, va, vb),
        decreases n - t,
    {
        let i: usize = n - 1 - t;
        let mut row: Vec<usize> = Vec::new();
        row.push(0);
        proof {
            assert(vb.skip(vb.len() - 0).len() == 0);
            assert(spec_lcs(va.skip(i as int), vb.skip(vb.len() - 0)) == 0);
        }
        let mut u: usize = 0;
        while u < m
            invariant
                u <= m,
                i == n - 1 - t,
                t < n,
                n == va.len(),
                m == vb.len(),
                va == views_of(a@),
                vb == views_of(b@),
                a@.len() == n,
                b@.len() == m,
                rows@.len() == t + 1,
                rows_ok(rows@, va, vb),
                row@.len() == u + 1,
                forall|uu: int|
                    0 <= uu < row@.len() ==> #[trigger] row@[uu] == spec_lcs(
                        va.skip(i as int),
                        vb.skip(vb.len() - uu),
                    ),
            decreases m - u,
        {
            let j: usize = m - 1 - u;
            let ghost sa = va.skip(i as int);
            let ghost sb = vb.skip(j as int);
            proof {
                assert(sa[0] == va[i as int]);
                assert(sb[0] == vb[j as int]);
                assert(sa.skip(1) =~~= va.skip(i as int + 1));
                assert(sb.skip(1) =~~= vb.skip(j as int + 1));
                assert(row_ok(rows@[t as int]@, va.len() - t, va, vb));
                lemma_lcs_le(va.skip(i as int + 1), vb.skip(j as int + 1));
            }
            let val: usize;
            if string_eq(&a[i], &b[j]) {
                let x = rows[t][m - 1 - j];
                proof {
                    assert(x == spec_lcs(va.skip(i as int + 1), vb.skip(j as int + 1)));
                    assert(spec_lcs(sa, sb) == 1 + spec_lcs(sa.skip(1), sb.skip(1)));
                }
                val = x + 1;
            } else {
                let x = rows[t][m - j];
                let y = row[u];
                proof {
                    assert(x == spec_lcs(va.skip(i as int + 1), vb.skip(j as int)));
                    assert(vb.skip(vb.len() - u) =~~= vb.skip(j as int + 1));
                    assert(y == spec_lcs(va.skip(i as int), vb.skip(j as int + 1)));
                    assert(va.skip(i as int + 1) =~~= sa.skip(1));
                    assert(vb.skip(j as int + 1) =~~= sb.skip(1));
                }
                val = if x >= y {
                    x
                } else {
                    y
                };
                proof {
                    assert(val == spec_lcs(sa, sb));
                }
            }
            row.push(val);
            proof {
                assert(vb.skip(vb.len() - (u + 1)) =~~= sb);
            }
            u = u + 1;
        }
        rows.push(row);
        proof {
            assert(row_ok(rows@[t + 1]@, va.len() - (t + 1), va, vb));
            assert(rows_ok(rows@, va, vb));
        }
        t = t + 1;
    }

    let mut ops: Vec<DiffOp> = Vec::new();
    let mut i: usize = 0;
    let mut j: usize = 0;
    proof {
        assert(va.skip(0) =~~= va);
        assert(vb.skip(0) =~~= vb);
        assert(ops_orig(ops@) =~~= va.take(0));
        assert(ops_edit(ops@) =~~= vb.take(0));
    }
    while i < n || j < m
        invariant
            i <= n,
            j <= m,
            n == va.len(),
            m == vb.len(),
            va == views_of(a@),
            vb == views_of(b@),
            a@.len() == n,
            b@.len() == m,
            rows@.len() == n + 1,
            rows_ok(rows@, va, vb),
            ops_orig(ops@) == va.take(i as int),
            ops_edit(ops@) == vb.take(j as int),
            count_same(ops@) + spec_lcs(va.skip(i as int), vb.skip(j as int)) == spec_lcs(va, vb),
        decreases (n - i) + (m - j),
    {
        let ghost sa = va.skip(i as int);
        let ghost sb = vb.skip(j as int);
        proof {
            if i < n {
                assert(sa[0] == va[i as int]);
                assert(sa.skip(1) =~~= va.skip(i as int + 1));
            }
            if j < m {
                assert(sb[0] == vb[j as int]);
                assert(sb.skip(1) =~~= vb.skip(j as int + 1));
            }
        }
        let take_same = i < n && j < m && string_eq(&a[i], &b[j]);
        if take_same {
            let ghost old_ops = ops@;
            ops.push(DiffOp::Same(a[i].clone()));
            proof {
                lemma_ops_push(old_ops, DiffOp::Same(a@[i as int]));
                assert(va.take(i as int) + orig_of(DiffOp::Same(a@[i as int])) =~~= va.take(
                    i as int + 1,
                ));
                assert(vb.take(j as int) + edit_of(DiffOp::Same(a@[i as int])) =~~= vb.take(
                    j as int + 1,
                ));
                assert(spec_lcs(sa, sb) == 1 + spec_lcs(va.skip(i as int + 1), vb.skip(
                    j as int + 1,
                )));
            }
            i = i + 1;
            j = j + 1;
        } else {
            let take_remove: bool;
            if j == m {
                take_remove = true;
            } else if i == n {
                take_remove = false;
            } else {
                let x = rows[n - i - 1][m - j];
                let y = rows[n - i][m - j - 1];
                proof {
                    assert(row_ok(rows@[n - i - 1]@, i as int + 1, va, vb));
                    assert(row_ok(rows@[n - i]@, i as int, va, vb));
                    assert(x == spec_lcs(va.skip(i as int + 1), vb.skip(j as int)));
                    assert(y == spec_lcs(va.skip(i as int), vb.skip(j as int + 1)));
                }
                take_remove = x >= y;
            }
            if take_remove {
                let ghost old_ops = ops@;
                ops.push(DiffOp::Remove(a[i].clone()));
                proof {
                    lemma_ops_push(old_ops, DiffOp::Remove(a@[i as int]));
                    assert(va.take(i as int) + orig_of(DiffOp::Remove(a@[i as int])) =~~= va.take(
                        i as int + 1,
                    ));
                    assert(vb.take(j as int) + edit_of(DiffOp::Remove(a@[i as int])) =~~= vb.take(
                        j as int,
                    ));
                    if j == m {
                        assert(spec_lcs(sa, sb) == 0);
                        assert(spec_lcs(va.skip(i as int + 1), sb) == 0);
                    } else {
                        assert(va[i as int] != vb[j as int]);
                        assert(spec_lcs(sa, sb) == spec_lcs(va.skip(i as int + 1), vb.skip(
                            j as int,
                        )));
                    }
                    assert(va.skip(i as int + 1) =~~= sa.skip(1));
                }
                i = i + 1;
            } else {
                let ghost old_ops = ops@;
                ops.push(DiffOp::Add(b[j].clone()));
                proof {
                    lemma_ops_push(old_ops, DiffOp::Add(b@[j as int]));
                    assert(va.take(i as int) + orig_of(DiffOp::Add(b@[j as int])) =~~= va.take(
                        i as int,
                    ));
                    assert(vb.take(j as int) + edit_of(DiffOp::Add(b@[j as int])) =~~= vb.take(
                        j as int + 1,
                    ));
                    if i == n {
                        assert(spec_lcs(sa, sb) == 0);
                        assert(spec_lcs(sa, vb.skip(j as int + 1)) == 0);
                    } else {
                        assert(va[i as int] != vb[j as int]);
                        assert(spec_lcs(sa, sb) == spec_lcs(va.skip(i as int), vb.skip(
                            j as int + 1,
                        )));
                    }
                    assert(vb.skip(j as int + 1) =~~= sb.skip(1));
                }
                j = j + 1;
            }
        }
    }
    proof {
        assert(va.take(n as int) =~~= va);
        assert(vb.take(m as int) =~~= vb);
        assert(spec_lcs(va.skip(n as int), vb.skip(m as int)) == 0);
    }
    ops
}

/// The SGR sequence that resets styling.
pub open spec fn reset_seq() -> Seq<char> {
    seq!['\u{1b}', '[', '0', 'm']
}

/// The SGR sequence for the green foreground of added lines.
pub open spec fn green_seq() -> Seq<char> {
    seq!['\u{1b}', '[', '3', '2', 'm']
}

/// The SGR sequence for the red foreground of removed lines.
pub open spec fn red_seq() -> Seq<char> {
    seq!['\u{1b}', '[', '3', '1', 'm']
}

/// The rendering of one operation: an unchanged line in neutral style, an
/// added line prefixed with `+` in green, a removed line prefixed with
/// `-` in red, each ending the physical line.
pub open spec fn render_op(x: DiffOp) -> Seq<char> {
    match x {
        DiffOp::Same(t) => reset_seq() + t@ + seq!['\n'],
        DiffOp::Add(t) => green_seq() + seq!['+'] + t@ + seq!['\n'],
        DiffOp::Remove(t) => red_seq() + seq!['-'] + t@ + seq!['\n'],
    }
}

/// The rendering of a changeset, one styled line per operation.
pub open spec fn render_ops(ops: Seq<DiffOp>) -> Seq<char>
    decreases ops.len(),
{
    if ops.len() == 0 {
        Seq::<char>::empty()
    } else {
        render_op(ops[0]) + render_ops(ops.skip(1))
    }
}

/// The neutral rendering of a sequence of lines: each line in default
/// style, no color applied to any of them.
pub open spec fn neutral_render(ls: Seq<Seq<char>>) -> Seq<char>
    decreases ls.len(),
{
    if ls.len() == 0 {
        Seq::<char>::empty()
    } else {
        reset_seq() + ls[0] + seq!['\n'] + neutral_render(ls.skip(1))
    }
}

/// A changeset of unchanged lines alone renders in neutral style only:
/// its rendering is the neutral rendering of its lines, with no added or
/// removed styling anywhere.
pub proof fn lemma_same_ops_render_neutral(ops: Seq<DiffOp>)
    requires
        forall|i: int| 0 <= i < ops.len() ==> ops[i] is Same,
    ensures
        render_ops(ops) == neutral_render(ops_orig(ops)),
    decreases ops.len(),
{
    if ops.len() == 0 {
        assert(ops_orig(ops) =~~= Seq::<Seq<char>>::empty());
    } else {
        assert(ops[0] is Same);
        assert(forall|i: int| 0 <= i < ops.skip(1).len() ==> #[trigger] ops.skip(1)[i] is Same);
        lemma_same_ops_render_neutral(ops.skip(1));
        let lo = ops_orig(ops);
        if let DiffOp::Same(s) = ops[0] {
            let t = s@;
            assert(lo == seq![t] + ops_orig(ops.skip(1)));
            assert(lo[0] == t);
            assert(lo.skip(1) =~~= ops_orig(ops.skip(1)));
            assert(render_op(ops[0]) == reset_seq() + t + seq!['\n']);
            assert(neutral_render(lo) == reset_seq() + lo[0] + seq!['\n'] + neutral_render(
                lo.skip(1),
            ));
            assert((reset_seq() + t + seq!['\n']) + neutral_render(lo.skip(1)) =~= reset_seq() + t
                + seq!['\n'] + neutral_render(lo.skip(1)));
        }
    }
}

/// Appending an operation appends its rendering.
proof fn lemma_render_push(s: Seq<DiffOp>, x: DiffOp)
    ensures
        render_ops(s.push(x)) == render_ops(s) + render_op(x),
    decreases s.len(),
{
    if s.len() == 0 {
        assert(s.push(x) =~= seq![x]);
        assert(seq![x].skip(1) =~= Seq::<DiffOp>::empty());
        assert(render_ops(seq![x]) == render_op(x) + render_ops(Seq::<DiffOp>::empty()));
        assert(render_op(x) + Seq::<char>::empty() =~= render_op(x));
        assert(render_ops(s) + render_op(x) =~= render_op(x));
    } else {
        lemma_render_push(s.skip(1), x);
        assert(s.push(x)[0] == s[0]);
        assert(s.push(x).skip(1) =~= s.skip(1).push(x));
        assert(render_op(s[0]) + (render_ops(s.skip(1)) + render_op(x)) =~= (render_op(s[0])
            + render_ops(s.skip(1))) + render_op(x));
    }
}

/// The SGR reset as a string slice.
fn reset_str() -> (r: &'static str)
    ensures
        r@ == reset_seq(),
{
    proof {
        reveal_strlit("\u{1b}[0m");
        assert("\u{1b}[0m"@ =~= reset_seq());
    }
    "\u{1b}[0m"
}

/// The SGR green foreground as a string slice.
fn green_str() -> (r: &'static str)
    ensures
        r@ == green_seq(),
{
    proof {
        reveal_strlit("\u{1b}[32m");
        assert("\u{1b}[32m"@ =~= green_seq());
    }
    "\u{1b}[32m"
}

/// The SGR red foreground as a string slice.
fn red_str() -> (r: &'static str)
    ensures
        r@ == red_seq(),
{
    proof {
        reveal_strlit("\u{1b}[31m");
        assert("\u{1b}[31m"@ =~= red_seq());
    }
    "\u{1b}[31m"
}

/// Renders a changeset: every operation as one styled physical line, and
/// a final reset so no styling outlives the rendering.
pub fn render_changeset(ops: &Vec<DiffOp>) -> (r: String)
    ensures
        r@ == render_ops(ops@) + reset_seq(),
{
    let mut r = String::new();
    let mut i: usize = 0;
    proof {
        assert(ops@.take(0) =~= Seq::<DiffOp>::empty());
        assert(r@ =~= render_ops(ops@.take(0)));
    }
    while i < ops.len()
        invariant
            i <= ops@.len(),
            r@ == render_ops(ops@.take(i as int)),
        decreases ops@.len() - i,
    {
        let ghost old_r = r@;
        match &ops[i] {
            DiffOp::Same(x) => {
                r.append(reset_str());
                r.append(x.as_str());
                r.append("\n");
                proof {
                    reveal_strlit("\n");
                    assert("\n"@ =~= seq!['\n']);
                    assert(r@ =~= old_r + render_op(ops@[i as int]));
                }
            },
            DiffOp::Add(x) => {
                r.append(green_str());
                r.append("+");
                r.append(x.as_str());
                r.append("\n");
                proof {
                    reveal_strlit("\n");
                    reveal_strlit("+");
                    assert("\n"@ =~= seq!['\n']);
                    assert("+"@ =~= seq!['+']);
                    assert(r@ =~= old_r + render_op(ops@[i as int]));
                }
            },
            DiffOp::Remove(x) => {
                r.append(red_str());
                r.append("-");
                r.append(x.as_str());
                r.append("\n");
                proof {
                    reveal_strlit("\n");
                    reveal_strlit("-");
                    assert("\n"@ =~= seq!['\n']);
                    assert("-"@ =~= seq!['-']);
                    assert(r@ =~= old_r + render_op(ops@[i as int]));
                }
            },
        }
        proof {
            lemma_render_push(ops@.take(i as int), ops@[i as int]);
            assert(ops@.take(i as int).push(ops@[i as int]) =~= ops@.take(i as int + 1));
        }
        i = i + 1;
    }
    proof {
        assert(ops@.take(ops@.len() as int) =~= ops@);
    }
    r.append(reset_str());
    r
}

/// Computes the changeset of two texts, compared line by line.
pub fn compute_changeset(orig: &str, edit: &str) -> (ops: Vec<DiffOp>)
    ensures
        ops_orig(ops@) == spec_lines(orig@),
        ops_edit(ops@) == spec_lines(edit@),
        count_same(ops@) == spec_lcs(spec_lines(orig@), spec_lines(edit@)),
{
    let a = split_lines(orig);
    let b = split_lines(edit);
    diff_lines(&a, &b)
}

} // verus!
