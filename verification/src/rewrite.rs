//! Rewriting of line-number references in diagnostic text: every line
//! opening with a reference to the file under comparison gets a
//! dual-coordinate token naming the line in both versions of the file,
//! and every other line is dropped, so that the differential view
//! compares only diagnostics located in that file.

use vstd::prelude::*;
use vstd::string::*;
use crate::index_map::{IndexMap, seq_lookup};
use crate::text::{
    all_digits, dec_rep, digits_val, is_digit, no_newline, spec_join, spec_lines, split_lines,
    join_lines, usize_to_string, views_of,
};

verus! {

/// The coordinate system a diagnostic text was produced against.
#[derive(Clone, Copy, PartialEq, Eq, Structural, Debug)]
pub enum Side {
    Original,
    Edited,
}

/// The one fatal rewriting error: a reference carries a number too large
/// to handle.
#[derive(Clone, Copy, PartialEq, Eq, Structural, Debug)]
pub enum RewriteError {
    NumberTooLarge,
}

/// True when the character is a path separator.
pub open spec fn is_sep(c: char) -> bool {
    c == '/' || c == '\\'
}

/// Character equality up to the path-separator difference.
pub open spec fn sep_eq(a: char, b: char) -> bool {
    a == b || (is_sep(a) && is_sep(b))
}

/// True when the line opens with the filename, separators normalized,
/// followed by `:`.
pub open spec fn file_matches(l: Seq<char>, f: Seq<char>) -> bool {
    l.len() > f.len() && (forall|i: int| 0 <= i < f.len() ==> sep_eq(l[i], f[i])) && l[f.len() as int]
        == ':'
}

/// The length of the run of digits starting at `i`.
pub open spec fn digit_run_len(l: Seq<char>, i: int) -> int
    decreases l.len() - i,
{
    if i < 0 || i >= l.len() || !is_digit(l[i]) {
        0
    } else {
        1 + digit_run_len(l, i + 1)
    }
}

/// The length of the coordinate field at `i`: a run of digits, or the
/// one-character `_` sentinel; zero when neither stands there.
pub open spec fn field_len(l: Seq<char>, i: int) -> int {
    if 0 <= i < l.len() && l[i] == '_' {
        1
    } else {
        digit_run_len(l, i)
    }
}

/// True when a coordinate field stands at `i`, terminated by `:`.
pub open spec fn has_field(l: Seq<char>, i: int) -> bool {
    field_len(l, i) >= 1 && i + field_len(l, i) < l.len() && l[i + field_len(l, i)] == ':'
}

/// True when the line opens with a single-number reference token for the
/// file: the filename, `:`, a run of digits, `:`.
pub open spec fn is_single_ref(l: Seq<char>, f: Seq<char>) -> bool {
    file_matches(l, f) && digit_run_len(l, f.len() as int + 1) >= 1 && f.len() + 1
        + digit_run_len(l, f.len() as int + 1) < l.len() && l[f.len() + 1 + digit_run_len(
        l,
        f.len() as int + 1,
    )] == ':'
}

/// True when the line already opens with a dual-coordinate token: the
/// filename, `:`, a coordinate field, `:`, a coordinate field, `:`.
pub open spec fn is_dual_ref(l: Seq<char>, f: Seq<char>) -> bool {
    file_matches(l, f) && has_field(l, f.len() as int + 1) && has_field(
        l,
        f.len() + 2 + field_len(l, f.len() as int + 1),
    )
}

/// The digits of a single-number reference.
pub open spec fn ref_digits(l: Seq<char>, f: Seq<char>) -> Seq<char> {
    l.subrange(f.len() as int + 1, f.len() + 1 + digit_run_len(l, f.len() as int + 1))
}

/// What follows the token of a single-number reference.
pub open spec fn ref_rest(l: Seq<char>, f: Seq<char>) -> Seq<char> {
    l.skip(f.len() + 2 + digit_run_len(l, f.len() as int + 1))
}

/// The other version's coordinate for line `n`: the mapped line number;
/// `n` itself when the map is empty, an empty diff leaving every line in
/// place; or the `_` sentinel when the edit touched the line.
pub open spec fn other_rep(m: Seq<(int, int)>, n: int) -> Seq<char> {
    if m.len() == 0 {
        dec_rep(n as nat)
    } else {
        match seq_lookup(m, n) {
            Option::Some(v) => dec_rep(v as nat),
            Option::None => seq!['_'],
        }
    }
}

/// The dual-coordinate form of a single-number reference line: the
/// matched prefix, then the original-version coordinate, then the
/// edited-version coordinate — in that fixed order on both sides, so the
/// two rewritten texts agree on unchanged lines — then the rest.
pub open spec fn rewritten_line(l: Seq<char>, f: Seq<char>, m: Seq<(int, int)>, side: Side) -> Seq<
    char,
> {
    let n = digits_val(ref_digits(l, f));
    let pre = l.take(f.len() as int + 1);
    let rest = ref_rest(l, f);
    match side {
        Side::Original => pre + dec_rep(n as nat) + seq![':'] + other_rep(m, n) + seq![':'] + rest,
        Side::Edited => pre + other_rep(m, n) + seq![':'] + dec_rep(n as nat) + seq![':'] + rest,
    }
}

/// True when the line survives the filter: it locates a diagnostic in
/// the file, either as a single-number reference or already dual.
pub open spec fn line_kept(l: Seq<char>, f: Seq<char>) -> bool {
    is_single_ref(l, f) || is_dual_ref(l, f)
}

/// What a kept line becomes: a dual line stays as it is, a single-number
/// reference is rewritten.
pub open spec fn line_output(l: Seq<char>, f: Seq<char>, m: Seq<(int, int)>, side: Side) -> Seq<
    char,
> {
    if is_dual_ref(l, f) {
        l
    } else {
        rewritten_line(l, f, m, side)
    }
}

/// True when rewriting the line cannot fail: only a single-number
/// reference whose number does not fit the machine is rejected.
pub open spec fn line_ok(l: Seq<char>, f: Seq<char>) -> bool {
    (is_single_ref(l, f) && !is_dual_ref(l, f)) ==> digits_val(ref_digits(l, f)) <= usize::MAX
}

/// The surviving lines of a rewritten text, in order.
pub open spec fn rewrite_lines(
    ls: Seq<Seq<char>>,
    f: Seq<char>,
    m: Seq<(int, int)>,
    side: Side,
) -> Seq<Seq<char>>
    decreases ls.len(),
{
    if ls.len() == 0 {
        Seq::<Seq<char>>::empty()
    } else {
        let rest = rewrite_lines(ls.skip(1), f, m, side);
        if line_kept(ls[0], f) {
            seq![line_output(ls[0], f, m, side)] + rest
        } else {
            rest
        }
    }
}

/// True when no line of the text is rejected.
pub open spec fn all_lines_ok(ls: Seq<Seq<char>>, f: Seq<char>) -> bool {
    forall|i: int| 0 <= i < ls.len() ==> line_ok(#[trigger] ls[i], f)
}

/// The rewritten text: the surviving lines, rewritten and joined.
pub open spec fn spec_rewrite(text: Seq<char>, f: Seq<char>, m: Seq<(int, int)>, side: Side) -> Seq<
    char,
> {
    spec_join(rewrite_lines(spec_lines(text), f, m, side))
}

/// A run of `k` digits at `i`, stopped by a non-digit or the end, is the
/// whole digit run there.
proof fn lemma_digit_run_exact(l: Seq<char>, i: int, k: int)
    requires
        0 <= i,
        0 <= k,
        i + k <= l.len(),
        forall|t: int| i <= t < i + k ==> is_digit(#[trigger] l[t]),
        i + k == l.len() || !is_digit(l[i + k]),
    ensures
        digit_run_len(l, i) == k,
    decreases k,
{
    if k == 0 {
    } else {
        assert(is_digit(l[i]));
        lemma_digit_run_exact(l, i + 1, k - 1);
    }
}

/// The other version's coordinate is a digit run or the `_` sentinel.
proof fn lemma_other_rep_shape(m: Seq<(int, int)>, n: int)
    ensures
        other_rep(m, n) == seq!['_'] || (other_rep(m, n).len() >= 1 && all_digits(
            other_rep(m, n),
        )),
{
    if m.len() == 0 {
        crate::text::lemma_dec_rep_digits(n as nat);
    } else {
        match seq_lookup(m, n) {
            Option::Some(v) => {
                crate::text::lemma_dec_rep_digits(v as nat);
            },
            Option::None => {
            },
        }
    }
}

/// What the rewriter emits for a kept line is a dual-coordinate line,
/// free of newlines.
proof fn lemma_output_line_dual(l: Seq<char>, f: Seq<char>, m: Seq<(int, int)>, side: Side)
    requires
        line_kept(l, f),
        line_ok(l, f),
        no_newline(l),
    ensures
        is_dual_ref(line_output(l, f, m, side), f),
        no_newline(line_output(l, f, m, side)),
{
    if is_dual_ref(l, f) {
    } else {
        let flen = f.len() as int;
        let n = digits_val(ref_digits(l, f));
        let pre = l.take(flen + 1);
        let rest = ref_rest(l, f);
        let this_rep = dec_rep(n as nat);
        let oth = other_rep(m, n);
        let a = if side is Original {
            this_rep
        } else {
            oth
        };
        let b = if side is Original {
            oth
        } else {
            this_rep
        };
        let out = pre + a + seq![':'] + b + seq![':'] + rest;
        assert(line_output(l, f, m, side) == out);
        crate::text::lemma_dec_rep_digits(n as nat);
        lemma_other_rep_shape(m, n);
        assert(a == seq!['_'] || (a.len() >= 1 && all_digits(a)));
        assert(b == seq!['_'] || (b.len() >= 1 && all_digits(b)));
        let p0 = flen + 1;
        let p1 = p0 + a.len() + 1;
        assert(out.len() == p1 + b.len() + 1 + rest.len());
        assert(forall|i: int| 0 <= i < pre.len() ==> out[i] == pre[i]);
        assert(forall|i: int| 0 <= i < a.len() ==> out[p0 + i] == a[i]);
        assert(out[p0 + a.len()] == ':');
        assert(forall|i: int| 0 <= i < b.len() ==> out[p1 + i] == b[i]);
        assert(out[p1 + b.len()] == ':');
        assert(forall|i: int| 0 <= i < rest.len() ==> out[p1 + b.len() + 1 + i] == rest[i]);
        assert(file_matches(out, f)) by {
            assert(forall|i: int| 0 <= i < flen ==> out[i] == l[i]);
            assert(out[flen] == l[flen]);
        }
        assert(!is_digit(':'));
        assert(!is_digit('_'));
        if a == seq!['_'] {
            assert(out[p0] == '_');
            assert(field_len(out, p0) == 1);
        } else {
            assert(forall|t: int| p0 <= t < p0 + a.len() ==> is_digit(#[trigger] out[t]));
            lemma_digit_run_exact(out, p0, a.len() as int);
            assert(is_digit(out[p0]));
            assert(out[p0] != '_');
            assert(field_len(out, p0) == a.len());
        }
        assert(field_len(out, p0) == a.len());
        assert(has_field(out, p0));
        if b == seq!['_'] {
            assert(out[p1] == '_');
            assert(field_len(out, p1) == 1);
        } else {
            assert(forall|t: int| p1 <= t < p1 + b.len() ==> is_digit(#[trigger] out[t]));
            lemma_digit_run_exact(out, p1, b.len() as int);
            assert(is_digit(out[p1]));
            assert(out[p1] != '_');
            assert(field_len(out, p1) == b.len());
        }
        assert(field_len(out, p1) == b.len());
        assert(has_field(out, p1));
        assert(is_dual_ref(out, f));
        assert forall|i: int| 0 <= i < out.len() implies out[i] != '\n' by {
            if i < pre.len() {
                assert(out[i] == l[i]);
            } else if i < p0 + a.len() {
                assert(out[i] == a[i - p0]);
                assert(a[i - p0] == '_' || is_digit(a[i - p0]));
            } else if i == p0 + a.len() {
                assert(out[i] == ':');
            } else if i < p1 + b.len() {
                assert(out[i] == b[i - p1]);
                assert(b[i - p1] == '_' || is_digit(b[i - p1]));
            } else if i == p1 + b.len() {
                assert(out[i] == ':');
            } else {
                assert(out[i] == rest[i - (p1 + b.len() + 1)]);
                assert(rest[i - (p1 + b.len() + 1)] == l[i - (p1 + b.len() + 1) + (flen + 2
                    + digit_run_len(l, flen + 1))]);
            }
        }
    }
}

/// Every line the rewriter keeps comes out dual and free of newlines.
proof fn lemma_rewrite_lines_dual(ls: Seq<Seq<char>>, f: Seq<char>, m: Seq<(int, int)>, side: Side)
    requires
        all_lines_ok(ls, f),
        forall|i: int| 0 <= i < ls.len() ==> no_newline(#[trigger] ls[i]),
    ensures
        forall|j: int|
            0 <= j < rewrite_lines(ls, f, m, side).len() ==> is_dual_ref(
                #[trigger] rewrite_lines(ls, f, m, side)[j],
                f,
            ) && no_newline(rewrite_lines(ls, f, m, side)[j]),
    decreases ls.len(),
{
    if ls.len() == 0 {
    } else {
        assert(line_ok(ls[0], f));
        assert(no_newline(ls[0]));
        assert(forall|i: int| 0 <= i < ls.skip(1).len() ==> line_ok(#[trigger] ls.skip(1)[i], f));
        assert(forall|i: int|
            0 <= i < ls.skip(1).len() ==> no_newline(#[trigger] ls.skip(1)[i]));
        lemma_rewrite_lines_dual(ls.skip(1), f, m, side);
        let rl = rewrite_lines(ls, f, m, side);
        let rest = rewrite_lines(ls.skip(1), f, m, side);
        if line_kept(ls[0], f) {
            lemma_output_line_dual(ls[0], f, m, side);
            assert(rl[0] == line_output(ls[0], f, m, side));
            assert(forall|j: int| 1 <= j < rl.len() ==> rl[j] == #[trigger] rest[j - 1]);
        } else {
            assert(forall|j: int| 0 <= j < rl.len() ==> rl[j] == #[trigger] rest[j]);
        }
    }
}

/// A text of dual-coordinate lines passes through the rewriter unchanged.
proof fn lemma_dual_lines_fixed(ls: Seq<Seq<char>>, f: Seq<char>, m: Seq<(int, int)>, side: Side)
    requires
        forall|i: int| 0 <= i < ls.len() ==> is_dual_ref(#[trigger] ls[i], f),
    ensures
        rewrite_lines(ls, f, m, side) == ls,
        all_lines_ok(ls, f),
    decreases ls.len(),
{
    if ls.len() == 0 {
        assert(rewrite_lines(ls, f, m, side) =~~= ls);
    } else {
        assert(is_dual_ref(ls[0], f));
        assert(forall|i: int|
            0 <= i < ls.skip(1).len() ==> is_dual_ref(#[trigger] ls.skip(1)[i], f));
        lemma_dual_lines_fixed(ls.skip(1), f, m, side);
        assert(rewrite_lines(ls, f, m, side) =~~= ls);
    }
}

/// A diagnostic line that does not match the filename pattern is dropped
/// entirely: removing it from the input leaves the rewritten lines
/// unchanged.
pub proof fn lemma_unmatched_line_dropped(
    ls: Seq<Seq<char>>,
    i: int,
    f: Seq<char>,
    m: Seq<(int, int)>,
    side: Side,
)
    requires
        0 <= i < ls.len(),
        !line_kept(ls[i], f),
    ensures
        rewrite_lines(ls, f, m, side) == rewrite_lines(ls.remove(i), f, m, side),
    decreases i,
{
    if i == 0 {
        assert(ls.remove(0) =~~= ls.skip(1));
    } else {
        assert(ls.skip(1)[i - 1] == ls[i]);
        lemma_unmatched_line_dropped(ls.skip(1), i - 1, f, m, side);
        assert(ls.remove(i).skip(1) =~~= ls.skip(1).remove(i - 1));
        assert(ls.remove(i)[0] == ls[0]);
    }
}

/// Rewriting is idempotent: a rewritten text holds dual-coordinate lines
/// alone, so rewriting it again keeps every line as it is and can reject
/// none.
pub proof fn lemma_rewrite_idempotent(text: Seq<char>, f: Seq<char>, m: Seq<(int, int)>, side: Side)
    requires
        all_lines_ok(spec_lines(text), f),
    ensures
        all_lines_ok(spec_lines(spec_rewrite(text, f, m, side)), f),
        spec_rewrite(spec_rewrite(text, f, m, side), f, m, side) == spec_rewrite(text, f, m, side),
{
    let ls = spec_lines(text);
    crate::text::lemma_lines_have_no_newline(text);
    lemma_rewrite_lines_dual(ls, f, m, side);
    let rl = rewrite_lines(ls, f, m, side);
    let out = spec_rewrite(text, f, m, side);
    if rl.len() == 0 {
        assert(out =~= Seq::<char>::empty());
        let e = Seq::<char>::empty();
        assert(spec_lines(e) =~~= seq![e]);
        assert(!line_kept(e, f));
        assert(line_ok(e, f));
        assert(all_lines_ok(spec_lines(out), f));
        assert(seq![e].skip(1) =~~= Seq::<Seq<char>>::empty());
        assert(rewrite_lines(Seq::<Seq<char>>::empty(), f, m, side) =~~= Seq::<
            Seq<char>,
        >::empty());
        assert(rewrite_lines(seq![e], f, m, side) =~~= Seq::<Seq<char>>::empty());
        assert(spec_rewrite(out, f, m, side) == out);
    } else {
        crate::text::lemma_lines_of_join(rl);
        assert(spec_lines(out) == rl);
        lemma_dual_lines_fixed(rl, f, m, side);
        assert(spec_rewrite(out, f, m, side) == out);
    }
}

/// True when `c` is a decimal digit.
fn is_digit_char(c: char) -> (b: bool)
    ensures
        b == is_digit(c),
{
    let u = c as u32;
    48 <= u && u <= 57
}

/// The end of the run of digits starting at `start`.
fn scan_digits(l: &str, start: usize) -> (end: usize)
    requires
        start <= l@.len(),
    ensures
        start <= end <= l@.len(),
        end - start == digit_run_len(l@, start as int),
{
    let n: usize = l.unicode_len();
    let mut j: usize = start;
    while j < n && is_digit_char(l.get_char(j))
        invariant
            start <= j <= n,
            n == l@.len(),
            digit_run_len(l@, start as int) == (j - start) + digit_run_len(l@, j as int),
        decreases n - j,
    {
        proof {
            assert(digit_run_len(l@, j as int) == 1 + digit_run_len(l@, j as int + 1));
        }
        j = j + 1;
    }
    proof {
        assert(digit_run_len(l@, j as int) == 0);
    }
    j
}

/// True when the line opens with the filename, separators normalized,
/// followed by `:`.
fn match_file(l: &str, f: &str) -> (b: bool)
    ensures
        b == file_matches(l@, f@),
{
    let lf: usize = f.unicode_len();
    let ln: usize = l.unicode_len();
    if ln <= lf {
        return false;
    }
    if l.get_char(lf) != ':' {
        return false;
    }
    let mut i: usize = 0;
    while i < lf
        invariant
            i <= lf,
            lf == f@.len(),
            ln == l@.len(),
            ln > lf,
            l@[lf as int] == ':',
            forall|t: int| 0 <= t < i ==> sep_eq(l@[t], f@[t]),
        decreases lf - i,
    {
        let a = l.get_char(i);
        let c = f.get_char(i);
        let ok = a == c || ((a == '/' || a == '\\') && (c == '/' || c == '\\'));
        if !ok {
            proof {
                assert(!sep_eq(l@[i as int], f@[i as int]));
            }
            return false;
        }
        i = i + 1;
    }
    true
}

/// The end of the coordinate field at `i`: digits, or the `_` sentinel.
fn field_end(l: &str, i: usize) -> (e: usize)
    requires
        i <= l@.len(),
    ensures
        i <= e <= l@.len(),
        e - i == field_len(l@, i as int),
{
    let n: usize = l.unicode_len();
    if i < n && l.get_char(i) == '_' {
        i + 1
    } else {
        scan_digits(l, i)
    }
}

/// True when a coordinate field terminated by `:` stands at `i`.
fn has_field_at(l: &str, i: usize) -> (b: bool)
    requires
        i <= l@.len(),
    ensures
        b == has_field(l@, i as int),
{
    let e = field_end(l, i);
    let n: usize = l.unicode_len();
    e > i && e < n && l.get_char(e) == ':'
}

/// The run of digits starting at `i` is made of digits.
proof fn lemma_digit_run_digits(l: Seq<char>, i: int)
    requires
        0 <= i <= l.len(),
    ensures
        forall|t: int| i <= t < i + digit_run_len(l, i) ==> is_digit(#[trigger] l[t]),
    decreases l.len() - i,
{
    if i < l.len() && is_digit(l[i]) {
        lemma_digit_run_digits(l, i + 1);
    }
}

/// Every digit-string value is at least the value of each of its prefixes.
proof fn lemma_digits_val_nonneg(s: Seq<char>)
    requires
        all_digits(s),
    ensures
        digits_val(s) >= 0,
    decreases s.len(),
{
    if s.len() == 0 {
    } else {
        assert(all_digits(s.drop_last()));
        lemma_digits_val_nonneg(s.drop_last());
        assert(is_digit(s.last()));
    }
}

/// A prefix of a digit string never exceeds the whole string's value.
proof fn lemma_digits_val_prefix(s: Seq<char>, k: int)
    requires
        all_digits(s),
        0 <= k <= s.len(),
    ensures
        digits_val(s.take(k)) <= digits_val(s),
    decreases s.len() - k,
{
    if k == s.len() {
        assert(s.take(k) =~= s);
    } else {
        lemma_digits_val_prefix(s, k + 1);
        assert(s.take(k + 1).drop_last() =~= s.take(k));
        assert(s.take(k + 1).last() == s[k]);
        assert(all_digits(s.take(k)));
        lemma_digits_val_nonneg(s.take(k));
        assert(is_digit(s[k]));
        assert(digits_val(s.take(k + 1)) == 10 * digits_val(s.take(k)) + (s[k] as int
            - '0' as int));
    }
}

/// Reads the digits of `l` between `start` and `end` as a number, or
/// reports that the value does not fit the machine.
fn parse_number(l: &str, start: usize, end: usize) -> (r: Option<usize>)
    requires
        start <= end <= l@.len(),
        all_digits(l@.subrange(start as int, end as int)),
    ensures
        (match r {
            Option::Some(v) => v as int == digits_val(l@.subrange(start as int, end as int)),
            Option::None => digits_val(l@.subrange(start as int, end as int)) > usize::MAX as int,
        }),
{
    let ghost d = l@.subrange(start as int, end as int);
    let mut val: usize = 0;
    let mut i: usize = start;
    proof {
        assert(d.take(0) =~= Seq::<char>::empty());
    }
    while i < end
        invariant
            start <= i <= end <= l@.len(),
            d == l@.subrange(start as int, end as int),
            all_digits(d),
            val as int == digits_val(d.take(i - start)),
        decreases end - i,
    {
        let c = l.get_char(i);
        proof {
            assert(d[i - start] == l@[i as int]);
            assert(is_digit(d[i - start]));
        }
        let dvu: usize = ((c as u32) - 48) as usize;
        let limit: usize = (usize::MAX - dvu) / 10;
        proof {
            assert(d.take(i - start + 1).drop_last() =~= d.take(i - start));
            assert(d.take(i - start + 1).last() == d[i - start]);
            assert(digits_val(d.take(i - start + 1)) == 10 * digits_val(d.take(i - start)) + (
            d[i - start] as int - '0' as int));
        }
        if val > limit {
            proof {
                let mx = usize::MAX as int;
                let dv = dvu as int;
                assert(mx - dv == 10 * ((mx - dv) / 10) + (mx - dv) % 10);
                assert(10 * (val as int) + dv > mx);
                lemma_digits_val_prefix(d, i - start + 1);
            }
            return Option::None;
        }
        proof {
            let mx = usize::MAX as int;
            let dv = dvu as int;
            assert(mx - dv == 10 * ((mx - dv) / 10) + (mx - dv) % 10);
            assert(10 * (val as int) + dv <= mx);
        }
        val = val * 10 + dvu;
        i = i + 1;
    }
    proof {
        assert(d.take(i - start) =~= d);
    }
    Option::Some(val)
}

/// Processes one diagnostic line: dual lines are kept as they are,
/// single-number references are rewritten, other lines are dropped, and
/// a number too large to read is reported.
fn process_line(l: &str, f: &str, m: &IndexMap, side: Side) -> (r: Result<
    Option<String>,
    RewriteError,
>)
    ensures
        (r is Err) <==> !line_ok(l@, f@),
        (match r {
            Result::Ok(Option::Some(s)) => line_kept(l@, f@) && s@ == line_output(
                l@,
                f@,
                m@,
                side,
            ),
            Result::Ok(Option::None) => !line_kept(l@, f@),
            Result::Err(e) => e == RewriteError::NumberTooLarge,
        }),
{
    if !match_file(l, f) {
        return Result::Ok(Option::None);
    }
    let flen: usize = f.unicode_len();
    let ln: usize = l.unicode_len();
    let p0: usize = flen + 1;
    let dend = scan_digits(l, p0);
    let single = dend > p0 && dend < ln && l.get_char(dend) == ':';
    let mut dual = false;
    if has_field_at(l, p0) {
        let e1 = field_end(l, p0);
        dual = has_field_at(l, e1 + 1);
    }
    proof {
        assert(single == is_single_ref(l@, f@));
        assert(dual == is_dual_ref(l@, f@));
    }
    if dual {
        return Result::Ok(Option::Some(l.to_owned()));
    }
    if !single {
        return Result::Ok(Option::None);
    }
    proof {
        assert(ref_digits(l@, f@) =~= l@.subrange(p0 as int, dend as int));
        lemma_digit_run_digits(l@, p0 as int);
        assert(all_digits(l@.subrange(p0 as int, dend as int)));
    }
    match parse_number(l, p0, dend) {
        Option::None => Result::Err(RewriteError::NumberTooLarge),
        Option::Some(n) => {
            let this_num = usize_to_string(n);
            let other_str: String;
            if m.is_empty() {
                other_str = usize_to_string(n);
            } else {
                match m.get(n) {
                    Option::Some(v) => {
                        other_str = usize_to_string(v);
                    },
                    Option::None => {
                        proof {
                            reveal_strlit("_");
                            assert("_"@ =~= seq!['_']);
                        }
                        other_str = "_".to_owned();
                    },
                }
            }
            let mut out: String = l.substring_char(0, p0).to_owned();
            let first: &String;
            let second: &String;
            match side {
                Side::Original => {
                    first = &this_num;
                    second = &other_str;
                },
                Side::Edited => {
                    first = &other_str;
                    second = &this_num;
                },
            }
            out.append(first.as_str());
            out.append(":");
            out.append(second.as_str());
            out.append(":");
            out.append(l.substring_char(dend + 1, ln));
            proof {
                reveal_strlit(":");
                assert(":"@ =~= seq![':']);
                assert(l@.subrange(0, p0 as int) =~= l@.take(p0 as int));
                assert(l@.subrange(dend + 1, ln as int) =~= ref_rest(l@, f@));
                assert(other_str@ == other_rep(m@, digits_val(ref_digits(l@, f@))));
                assert(out@ =~= rewritten_line(l@, f@, m@, side));
            }
            Result::Ok(Option::Some(out))
        },
    }
}

/// Rewrites a diagnostic text produced against one version of the file:
/// lines locating a diagnostic in the file survive, carrying both
/// versions' line numbers; every other line is dropped. A reference
/// whose number does not fit the machine is the one error.
pub fn rewrite_text(text: &str, filename: &str, m: &IndexMap, side: Side) -> (r: Result<
    String,
    RewriteError,
>)
    ensures
        (r is Ok) <==> all_lines_ok(spec_lines(text@), filename@),
        (match r {
            Result::Ok(s) => s@ == spec_rewrite(text@, filename@, m@, side),
            Result::Err(e) => e == RewriteError::NumberTooLarge,
        }),
{
    let lines = split_lines(text);
    let ghost ls = views_of(lines@);
    let ghost mv = m@;
    let mut kept: Vec<String> = Vec::new();
    let mut i: usize = 0;
    proof {
        assert(ls.skip(0) =~~= ls);
        assert(views_of(kept@) =~~= Seq::<Seq<char>>::empty());
        assert(Seq::<Seq<char>>::empty() + rewrite_lines(ls, filename@, mv, side)
            =~~= rewrite_lines(ls, filename@, mv, side));
    }
    while i < lines.len()
        invariant
            i <= lines@.len(),
            views_of(lines@) == ls,
            ls == spec_lines(text@),
            mv == m@,
            rewrite_lines(ls, filename@, mv, side) == views_of(kept@) + rewrite_lines(
                ls.skip(i as int),
                filename@,
                mv,
                side,
            ),
            forall|t: int| 0 <= t < i ==> line_ok(#[trigger] ls[t], filename@),
        decreases lines@.len() - i,
    {
        proof {
            assert(ls.skip(i as int)[0] == ls[i as int]);
            assert(ls.skip(i as int).skip(1) =~~= ls.skip(i as int + 1));
        }
        match process_line(lines[i].as_str(), filename, m, side) {
            Result::Err(e) => {
                proof {
                    assert(!line_ok(ls[i as int], filename@));
                }
                return Result::Err(e);
            },
            Result::Ok(Option::None) => {
            },
            Result::Ok(Option::Some(s)) => {
                let ghost old_kept = kept@;
                kept.push(s);
                proof {
                    assert(views_of(kept@) =~~= views_of(old_kept).push(s@));
                    assert(views_of(old_kept).push(s@) + rewrite_lines(
                        ls.skip(i as int + 1),
                        filename@,
                        mv,
                        side,
                    ) =~~= views_of(old_kept) + (seq![s@] + rewrite_lines(
                        ls.skip(i as int + 1),
                        filename@,
                        mv,
                        side,
                    )));
                }
            },
        }
        i = i + 1;
    }
    proof {
        assert(ls.skip(ls.len() as int) =~~= Seq::<Seq<char>>::empty());
        assert(views_of(kept@) + Seq::<Seq<char>>::empty() =~~= views_of(kept@));
        assert(views_of(kept@) == rewrite_lines(ls, filename@, mv, side));
    }
    let joined = join_lines(&kept);
    Result::Ok(joined)
}

} // verus!
