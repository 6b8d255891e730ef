//! Parsing of a unified diff for one file into its classified hunk body.

use vstd::prelude::*;
use vstd::string::*;
use crate::text::{spec_lines, views_of, split_lines};

verus! {

/// The class of one physical line of a hunk body: a line starting with `+`
/// was added by the edit, a line starting with `-` was removed, and any
/// other line is context present in both versions.
#[derive(Clone, Copy, PartialEq, Eq, Structural, Debug)]
pub enum LineClass {
    Context,
    Added,
    Removed,
}

/// The class a hunk-body line gets from its first character.
pub open spec fn class_of(line: Seq<char>) -> LineClass {
    if line.len() >= 1 && line[0] == '+' {
        LineClass::Added
    } else if line.len() >= 1 && line[0] == '-' {
        LineClass::Removed
    } else {
        LineClass::Context
    }
}

/// True when the line is a hunk header, the line beginning with `@@`.
pub open spec fn is_hunk_header(l: Seq<char>) -> bool {
    l.len() >= 2 && l[0] == '@' && l[1] == '@'
}

/// The lines after the first hunk header; empty when no header occurs.
pub open spec fn after_header(ls: Seq<Seq<char>>) -> Seq<Seq<char>>
    decreases ls.len(),
{
    if ls.len() == 0 {
        Seq::<Seq<char>>::empty()
    } else if is_hunk_header(ls[0]) {
        ls.skip(1)
    } else {
        after_header(ls.skip(1))
    }
}

/// Discards the zero-length trailing artifact that splitting a text with a
/// final newline leaves behind, so it is not mistaken for a context line.
pub open spec fn drop_trailing_empty(ls: Seq<Seq<char>>) -> Seq<Seq<char>> {
    if ls.len() > 0 && ls.last().len() == 0 {
        ls.drop_last()
    } else {
        ls
    }
}

/// The classified hunk body of a unified diff for one file: everything up
/// to and including the hunk header is discarded, the trailing empty
/// artifact is dropped, and each remaining line is classified.
pub open spec fn hunk_classes(text: Seq<char>) -> Seq<LineClass> {
    drop_trailing_empty(after_header(spec_lines(text))).map_values(|l: Seq<char>| class_of(l))
}

/// Classifies one hunk-body line by its first character.
pub fn classify_line(line: &str) -> (c: LineClass)
    ensures
        c == class_of(line@),
{
    if line.unicode_len() >= 1 {
        let ch = line.get_char(0);
        if ch == '+' {
            LineClass::Added
        } else if ch == '-' {
            LineClass::Removed
        } else {
            LineClass::Context
        }
    } else {
        LineClass::Context
    }
}

/// True when the line begins with `@@`.
fn is_header_line(line: &str) -> (b: bool)
    ensures
        b == is_hunk_header(line@),
{
    line.unicode_len() >= 2 && line.get_char(0) == '@' && line.get_char(1) == '@'
}

/// Extracts and classifies the hunk body of a unified diff for one file.
/// A diff without a hunk header yields an empty classification.
pub fn parse_hunk(diff: &str) -> (r: Vec<LineClass>)
    ensures
        r@ == hunk_classes(diff@),
{
    let lines = split_lines(diff);
    let ghost vs = views_of(lines@);
    let n: usize = lines.len();
    let mut k: usize = 0;
    proof {
        assert(vs.skip(0) =~~= vs);
    }
    while k < n && !is_header_line(lines[k].as_str())
        invariant
            k <= n,
            n == lines@.len(),
            views_of(lines@) == vs,
            vs == spec_lines(diff@),
            after_header(vs) == after_header(vs.skip(k as int)),
        decreases n - k,
    {
        proof {
            assert(vs.skip(k as int)[0] == vs[k as int]);
            assert(vs.skip(k as int).skip(1) =~~= vs.skip(k as int + 1));
        }
        k = k + 1;
    }
    let mut r: Vec<LineClass> = Vec::new();
    if k == n {
        proof {
            assert(vs.skip(n as int) =~~= Seq::<Seq<char>>::empty());
            assert(after_header(vs) =~~= Seq::<Seq<char>>::empty());
            assert(r@ =~= hunk_classes(diff@));
        }
        return r;
    }
    proof {
        assert(vs.skip(k as int)[0] == vs[k as int]);
        assert(after_header(vs) == vs.skip(k as int).skip(1));
        assert(vs.skip(k as int).skip(1) =~~= vs.skip(k as int + 1));
    }
    let mut end: usize = n;
    if n > k + 1 && lines[n - 1].as_str().unicode_len() == 0 {
        end = n - 1;
        proof {
            assert(vs.skip(k as int + 1).last() == vs[n - 1]);
            assert(drop_trailing_empty(vs.skip(k as int + 1)) =~~= vs.subrange(
                k as int + 1,
                end as int,
            ));
        }
    } else {
        proof {
            if n > k + 1 {
                assert(vs.skip(k as int + 1).last() == vs[n - 1]);
            }
            assert(drop_trailing_empty(vs.skip(k as int + 1)) =~~= vs.subrange(
                k as int + 1,
                end as int,
            ));
        }
    }
    let ghost body = vs.subrange(k as int + 1, end as int);
    let mut i: usize = k + 1;
    while i < end
        invariant
            k + 1 <= i <= end <= n,
            n == lines@.len(),
            views_of(lines@) == vs,
            body == vs.subrange(k as int + 1, end as int),
            r@.len() == i - (k + 1),
            forall|t: int| 0 <= t < r@.len() ==> r@[t] == class_of(#[trigger] body[t]),
        decreases end - i,
    {
        let c = classify_line(lines[i].as_str());
        r.push(c);
        i = i + 1;
    }
    proof {
        assert(r@ =~= body.map_values(|l: Seq<char>| class_of(l)));
    }
    r
}

} // verus!
