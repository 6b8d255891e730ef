//! Text utilities: splitting a text into lines, joining lines back into a
//! text, and reading and writing decimal line numbers.

use vstd::prelude::*;
use vstd::string::*;

verus! {

/// The sequence of character sequences of a sequence of strings.
pub open spec fn views_of(v: Seq<String>) -> Seq<Seq<char>> {
    v.map_values(|s: String| s@)
}

/// True when the line holds no newline character.
pub open spec fn no_newline(l: Seq<char>) -> bool {
    forall|i: int| 0 <= i < l.len() ==> l[i] != '\n'
}

/// The lines of a text, split on `'\n'`. A text with `k` newline characters
/// has `k + 1` lines, so a text ending in a newline has a final empty line.
pub open spec fn spec_lines(s: Seq<char>) -> Seq<Seq<char>>
    decreases s.len(),
{
    if s.len() == 0 {
        seq![Seq::<char>::empty()]
    } else if s[0] == '\n' {
        seq![Seq::<char>::empty()] + spec_lines(s.skip(1))
    } else {
        let rest = spec_lines(s.skip(1));
        seq![seq![s[0]] + rest[0]] + rest.skip(1)
    }
}

/// The text obtained by joining lines with a `'\n'` separator.
pub open spec fn spec_join(ls: Seq<Seq<char>>) -> Seq<char>
    decreases ls.len(),
{
    if ls.len() == 0 {
        Seq::<char>::empty()
    } else if ls.len() == 1 {
        ls[0]
    } else {
        ls[0] + seq!['\n'] + spec_join(ls.skip(1))
    }
}

/// A split always yields at least one line.
pub proof fn lemma_lines_nonempty(s: Seq<char>)
    ensures
        spec_lines(s).len() >= 1,
    decreases s.len(),
{
    if s.len() == 0 {
    } else if s[0] == '\n' {
        lemma_lines_nonempty(s.skip(1));
    } else {
        lemma_lines_nonempty(s.skip(1));
    }
}

/// A text without newlines is a single line.
pub proof fn lemma_lines_no_newline(s: Seq<char>)
    requires
        no_newline(s),
    ensures
        spec_lines(s) == seq![s],
    decreases s.len(),
{
    if s.len() == 0 {
        assert(spec_lines(s) =~~= seq![s]);
    } else {
        assert(s[0] != '\n');
        assert(no_newline(s.skip(1))) by {
            assert(forall|i: int| 0 <= i < s.skip(1).len() ==> s.skip(1)[i] == s[i + 1]);
        }
        lemma_lines_no_newline(s.skip(1));
        lemma_lines_nonempty(s.skip(1));
        assert(seq![s[0]] + s.skip(1) =~= s);
        assert(spec_lines(s) =~~= seq![s]);
    }
}

/// Splitting a text whose first newline stands at position `k` yields the
/// prefix before it as the first line, followed by the lines of the rest.
pub proof fn lemma_lines_first_newline(s: Seq<char>, k: int)
    requires
        0 <= k < s.len(),
        s[k] == '\n',
        forall|i: int| 0 <= i < k ==> s[i] != '\n',
    ensures
        spec_lines(s) == seq![s.take(k)] + spec_lines(s.skip(k + 1)),
    decreases k,
{
    if k == 0 {
        assert(s.take(0) =~= Seq::<char>::empty());
        assert(spec_lines(s) =~~= seq![s.take(0)] + spec_lines(s.skip(1)));
    } else {
        let t = s.skip(1);
        assert(t[k - 1] == s[k]);
        assert(forall|i: int| 0 <= i < k - 1 ==> t[i] == s[i + 1]);
        lemma_lines_first_newline(t, k - 1);
        lemma_lines_nonempty(t);
        assert(t.skip(k) =~= s.skip(k + 1));
        let rest = spec_lines(t);
        assert(rest == seq![t.take(k - 1)] + spec_lines(s.skip(k + 1)));
        assert(rest[0] == t.take(k - 1));
        assert(seq![s[0]] + t.take(k - 1) =~= s.take(k));
        assert(rest.skip(1) =~~= spec_lines(s.skip(k + 1)));
        assert(spec_lines(s) =~~= seq![s.take(k)] + spec_lines(s.skip(k + 1)));
    }
}

/// Every line of a split text is free of newlines.
pub proof fn lemma_lines_have_no_newline(s: Seq<char>)
    ensures
        forall|i: int|
            0 <= i < spec_lines(s).len() ==> #[trigger] no_newline(spec_lines(s)[i]),
    decreases s.len(),
{
    if s.len() == 0 {
        assert(no_newline(spec_lines(s)[0]));
    } else if s[0] == '\n' {
        lemma_lines_have_no_newline(s.skip(1));
        assert(no_newline(spec_lines(s)[0]));
        assert(forall|i: int|
            1 <= i < spec_lines(s).len() ==> spec_lines(s)[i] == spec_lines(s.skip(1))[i - 1]);
    } else {
        lemma_lines_have_no_newline(s.skip(1));
        lemma_lines_nonempty(s.skip(1));
        let rest = spec_lines(s.skip(1));
        assert(no_newline(spec_lines(s)[0])) by {
            let first = seq![s[0]] + rest[0];
            assert(no_newline(rest[0]));
            assert(forall|j: int| 1 <= j < first.len() ==> first[j] == rest[0][j - 1]);
        }
        assert(forall|i: int| 1 <= i < spec_lines(s).len() ==> spec_lines(s)[i] == rest[i]);
    }
}

/// Appending one more line to a join adds a separator and the line.
pub proof fn lemma_join_push(a: Seq<Seq<char>>, x: Seq<char>)
    ensures
        spec_join(a.push(x)) == if a.len() == 0 {
            x
        } else {
            spec_join(a) + seq!['\n'] + x
        },
    decreases a.len(),
{
    if a.len() == 0 {
        assert(a.push(x) =~~= seq![x]);
    } else if a.len() == 1 {
        assert(a.push(x).skip(1) =~~= seq![x]);
        assert(spec_join(seq![x]) == x);
        assert(a.push(x)[0] == a[0]);
        assert(spec_join(a.push(x)) == a[0] + seq!['\n'] + x);
    } else {
        lemma_join_push(a.skip(1), x);
        assert(a.push(x).skip(1) =~~= a.skip(1).push(x));
        assert(a.push(x)[0] == a[0]);
        assert((a[0] + seq!['\n'] + (spec_join(a.skip(1)) + seq!['\n'] + x)) =~= (a[0]
            + seq!['\n'] + spec_join(a.skip(1))) + seq!['\n'] + x);
    }
}

/// Splitting a join of newline-free lines recovers exactly those lines.
pub proof fn lemma_lines_of_join(ls: Seq<Seq<char>>)
    requires
        ls.len() >= 1,
        forall|i: int| 0 <= i < ls.len() ==> #[trigger] no_newline(ls[i]),
    ensures
        spec_lines(spec_join(ls)) == ls,
    decreases ls.len(),
{
    if ls.len() == 1 {
        lemma_lines_no_newline(ls[0]);
        assert(seq![ls[0]] =~~= ls);
    } else {
        let s = spec_join(ls);
        let k = ls[0].len() as int;
        assert(no_newline(ls[0]));
        assert(s == ls[0] + seq!['\n'] + spec_join(ls.skip(1)));
        assert(forall|i: int| 0 <= i < k ==> s[i] == ls[0][i]);
        assert(s[k] == '\n');
        lemma_lines_first_newline(s, k);
        assert(s.take(k) =~= ls[0]);
        assert(s.skip(k + 1) =~= spec_join(ls.skip(1)));
        assert(forall|i: int| 0 <= i < ls.skip(1).len() ==> no_newline(#[trigger] ls.skip(1)[i]));
        lemma_lines_of_join(ls.skip(1));
        assert(spec_lines(s) =~~= ls);
    }
}

/// Splits a text into its lines, one string per line, separators removed.
pub fn split_lines(s: &str) -> (r: Vec<String>)
    ensures
        views_of(r@) == spec_lines(s@),
{
    let n: usize = s.unicode_len();
    let mut r: Vec<String> = Vec::new();
    let mut start: usize = 0;
    let mut j: usize = 0;
    proof {
        assert(s@.skip(0) =~= s@);
        assert(views_of(r@) =~~= Seq::<Seq<char>>::empty());
        assert(Seq::<Seq<char>>::empty() + spec_lines(s@) =~~= spec_lines(s@));
    }
    while j < n
        invariant
            start <= j <= n,
            n == s@.len(),
            forall|t: int| start <= t < j ==> s@[t] != '\n',
            spec_lines(s@) == views_of(r@) + spec_lines(s@.skip(start as int)),
        decreases n - j,
    {
        let c = s.get_char(j);
        if c == '\n' {
            let piece = s.substring_char(start, j).to_owned();
            proof {
                let tail = s@.skip(start as int);
                assert(tail[(j - start) as int] == s@[j as int]);
                assert(forall|t: int| 0 <= t < j - start ==> tail[t] == s@[t + start]);
                lemma_lines_first_newline(tail, (j - start) as int);
                assert(tail.take((j - start) as int) =~= s@.subrange(start as int, j as int));
                assert(tail.skip((j - start + 1) as int) =~= s@.skip((j + 1) as int));
            }
            let ghost old_r = r@;
            r.push(piece);
            proof {
                assert(views_of(r@) =~~= views_of(old_r).push(piece@));
                assert(views_of(old_r).push(piece@) + spec_lines(s@.skip((j + 1) as int))
                    =~~= views_of(old_r) + (seq![piece@] + spec_lines(s@.skip((j + 1) as int))));
            }
            start = j + 1;
        }
        j = j + 1;
    }
    let piece = s.substring_char(start, n).to_owned();
    proof {
        let tail = s@.skip(start as int);
        assert(forall|t: int| 0 <= t < tail.len() ==> tail[t] == s@[t + start]);
        lemma_lines_no_newline(tail);
        assert(s@.subrange(start as int, n as int) =~= tail);
    }
    let ghost old_r = r@;
    r.push(piece);
    proof {
        assert(views_of(r@) =~~= views_of(old_r).push(piece@));
        assert(views_of(old_r).push(piece@) =~~= views_of(old_r) + seq![piece@]);
    }
    r
}

/// Joins lines into one text with a `'\n'` separator between lines.
pub fn join_lines(v: &Vec<String>) -> (r: String)
    ensures
        r@ == spec_join(views_of(v@)),
{
    let mut r = String::new();
    let mut i: usize = 0;
    proof {
        assert(views_of(v@).take(0) =~~= Seq::<Seq<char>>::empty());
    }
    while i < v.len()
        invariant
            0 <= i <= v@.len(),
            r@ == spec_join(views_of(v@).take(i as int)),
        decreases v@.len() - i,
    {
        if i > 0 {
            r.append("\n");
            proof {
                reveal_strlit("\n");
                assert("\n"@ =~= seq!['\n']);
            }
        }
        r.append(v[i].as_str());
        proof {
            let vs = views_of(v@);
            lemma_join_push(vs.take(i as int), vs[i as int]);
            assert(vs.take(i as int).push(vs[i as int]) =~~= vs.take(i + 1));
            assert(vs[i as int] == v@[i as int]@);
        }
        i = i + 1;
    }
    proof {
        assert(views_of(v@).take(v@.len() as int) =~~= views_of(v@));
    }
    r
}

/// True when `c` is a decimal digit.
pub open spec fn is_digit(c: char) -> bool {
    ('0' as int) <= (c as int) <= ('9' as int)
}

/// True when every character of `s` is a decimal digit.
pub open spec fn all_digits(s: Seq<char>) -> bool {
    forall|i: int| 0 <= i < s.len() ==> is_digit(#[trigger] s[i])
}

/// The numeric value of a digit string, most significant digit first.
pub open spec fn digits_val(s: Seq<char>) -> int
    decreases s.len(),
{
    if s.len() == 0 {
        0
    } else {
        10 * digits_val(s.drop_last()) + (s.last() as int - '0' as int)
    }
}

/// The decimal digit character of a value below ten.
pub open spec fn digit_char(d: int) -> char {
    seq!['0', '1', '2', '3', '4', '5', '6', '7', '8', '9'][d]
}

/// The canonical decimal representation of a number: no leading zeros
/// except for zero itself.
pub open spec fn dec_rep(n: nat) -> Seq<char>
    decreases n,
{
    if n < 10 {
        seq![digit_char(n as int)]
    } else {
        dec_rep(n / 10) + seq![digit_char((n % 10) as int)]
    }
}

/// The decimal representation is nonempty and made of digits.
pub proof fn lemma_dec_rep_digits(n: nat)
    ensures
        dec_rep(n).len() >= 1,
        all_digits(dec_rep(n)),
    decreases n,
{
    if n < 10 {
        assert(is_digit(dec_rep(n)[0]));
    } else {
        lemma_dec_rep_digits(n / 10);
        assert(is_digit(digit_char((n % 10) as int)));
        assert(forall|i: int|
            0 <= i < dec_rep(n / 10).len() ==> dec_rep(n)[i] == dec_rep(n / 10)[i]);
        assert(dec_rep(n).last() == digit_char((n % 10) as int));
        assert(all_digits(dec_rep(n)));
    }
}

/// One decimal digit as a string slice.
fn digit_str(d: usize) -> (r: &'static str)
    requires
        d < 10,
    ensures
        r@ == seq![digit_char(d as int)],
{
    proof {
        reveal_strlit("0");
        reveal_strlit("1");
        reveal_strlit("2");
        reveal_strlit("3");
        reveal_strlit("4");
        reveal_strlit("5");
        reveal_strlit("6");
        reveal_strlit("7");
        reveal_strlit("8");
        reveal_strlit("9");
    }
    match d {
        0 => "0",
        1 => "1",
        2 => "2",
        3 => "3",
        4 => "4",
        5 => "5",
        6 => "6",
        7 => "7",
        8 => "8",
        _ => "9",
    }
}

/// Writes a number in canonical decimal notation.
pub fn usize_to_string(n: usize) -> (r: String)
    ensures
        r@ == dec_rep(n as nat),
    decreases n,
{
    if n < 10 {
        digit_str(n).to_owned()
    } else {
        let mut s = usize_to_string(n / 10);
        s.append(digit_str(n % 10));
        s
    }
}

} // verus!
