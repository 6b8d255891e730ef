//! The correspondence between line numbers of two versions of a text,
//! built from the classified hunk body of a unified diff.

use vstd::prelude::*;
use crate::hunk::{LineClass, hunk_classes, parse_hunk};

verus! {

/// The integer pairs a vector of line-number pairs stands for.
pub open spec fn int_pairs(s: Seq<(usize, usize)>) -> Seq<(int, int)> {
    s.map_values(|p: (usize, usize)| (p.0 as int, p.1 as int))
}

/// The first value paired with `k`, scanning from the front.
pub open spec fn seq_lookup(m: Seq<(int, int)>, k: int) -> Option<int>
    decreases m.len(),
{
    if m.len() == 0 {
        Option::<int>::None
    } else if m[0].0 == k {
        Option::Some(m[0].1)
    } else {
        seq_lookup(m.skip(1), k)
    }
}

/// The same pairs with both sides exchanged.
pub open spec fn swap_pairs(m: Seq<(int, int)>) -> Seq<(int, int)> {
    m.map_values(|p: (int, int)| (p.1, p.0))
}

/// True when both components grow strictly along the sequence; keys and
/// values are then unique, and both lookup directions are monotone.
pub open spec fn strictly_increasing(m: Seq<(int, int)>) -> bool {
    forall|i: int, j: int|
        #![trigger m[i], m[j]]
        0 <= i < j < m.len() ==> m[i].0 < m[j].0 && m[i].1 < m[j].1
}

/// The correspondence pairs of a classified hunk body, with the original
/// counter at `o` and the edited counter at `e`. Every line that is not
/// added advances the original counter, every line that is not removed
/// advances the edited counter, and each context line records the pair of
/// counter values at that point.
pub open spec fn corr_pairs_from(cls: Seq<LineClass>, o: int, e: int) -> Seq<(int, int)>
    decreases cls.len(),
{
    if cls.len() == 0 {
        Seq::<(int, int)>::empty()
    } else {
        match cls[0] {
            LineClass::Context => seq![(o, e)] + corr_pairs_from(cls.skip(1), o + 1, e + 1),
            LineClass::Added => corr_pairs_from(cls.skip(1), o, e + 1),
            LineClass::Removed => corr_pairs_from(cls.skip(1), o + 1, e),
        }
    }
}

/// The correspondence pairs of a classified hunk body, counting lines of
/// both versions from one.
pub open spec fn corr_pairs(cls: Seq<LineClass>) -> Seq<(int, int)> {
    corr_pairs_from(cls, 1, 1)
}

/// A map from 1-based line numbers of one version of a text to the
/// 1-based line numbers of the same logical lines in the other version.
/// Lines touched by the edit have no entry.
pub struct IndexMap {
    /// The pairs of corresponding line numbers, in increasing order.
    pub entries: Vec<(usize, usize)>,
}

impl View for IndexMap {
    type V = Seq<(int, int)>;

    open spec fn view(&self) -> Seq<(int, int)> {
        int_pairs(self.entries@)
    }
}

impl IndexMap {
    /// A map holding the given pairs in the given order.
    pub fn from_pairs(entries: Vec<(usize, usize)>) -> (r: IndexMap)
        ensures
            r@ == int_pairs(entries@),
    {
        IndexMap { entries }
    }

    /// The number of line pairs the map holds.
    pub fn len(&self) -> (n: usize)
        ensures
            n == self@.len(),
    {
        self.entries.len()
    }

    /// True when the map holds no pair at all.
    pub fn is_empty(&self) -> (b: bool)
        ensures
            b == (self@.len() == 0),
    {
        self.entries.len() == 0
    }

    /// Looks up the line number of the other version corresponding to
    /// line `k`, or nothing when the edit touched that line.
    pub fn get(&self, k: usize) -> (r: Option<usize>)
        ensures
            seq_lookup(self@, k as int) == (match r {
                Option::Some(v) => Option::Some(v as int),
                Option::None => Option::<int>::None,
            }),
    {
        let mut i: usize = 0;
        proof {
            assert(self@.skip(0) =~= self@);
        }
        while i < self.entries.len()
            invariant
                i <= self.entries@.len(),
                self@ == int_pairs(self.entries@),
                seq_lookup(self@, k as int) == seq_lookup(self@.skip(i as int), k as int),
            decreases self.entries@.len() - i,
        {
            let pair = self.entries[i];
            proof {
                assert(self@.skip(i as int)[0] == self@[i as int]);
                assert(self@.skip(i as int).skip(1) =~= self@.skip(i as int + 1));
            }
            if pair.0 == k {
                return Option::Some(pair.1);
            }
            i = i + 1;
        }
        Option::None
    }
}

/// Every recorded pair sits at or above the starting counters, and the
/// pairs grow strictly in both components.
pub proof fn lemma_corr_pairs_bounds(cls: Seq<LineClass>, o: int, e: int)
    ensures
        forall|t: int|
            0 <= t < corr_pairs_from(cls, o, e).len() ==> o <= (
            #[trigger] corr_pairs_from(cls, o, e)[t]).0 && e <= corr_pairs_from(cls, o, e)[t].1,
        strictly_increasing(corr_pairs_from(cls, o, e)),
    decreases cls.len(),
{
    if cls.len() == 0 {
    } else {
        let p = corr_pairs_from(cls, o, e);
        match cls[0] {
            LineClass::Context => {
                lemma_corr_pairs_bounds(cls.skip(1), o + 1, e + 1);
                let rest = corr_pairs_from(cls.skip(1), o + 1, e + 1);
                assert(forall|t: int| 1 <= t < p.len() ==> p[t] == rest[t - 1]);
                assert(strictly_increasing(p)) by {
                    assert(forall|i: int, j: int|
                        #![trigger p[i], p[j]]
                        0 <= i < j < p.len() ==> p[i].0 < p[j].0 && p[i].1 < p[j].1) by {
                        assert(forall|j: int| 1 <= j < p.len() ==> p[0].0 < #[trigger] p[j].0
                            && p[0].1 < p[j].1);
                    }
                }
            },
            LineClass::Added => {
                lemma_corr_pairs_bounds(cls.skip(1), o, e + 1);
            },
            LineClass::Removed => {
                lemma_corr_pairs_bounds(cls.skip(1), o + 1, e);
            },
        }
    }
}

/// Looking up the key of entry `t` finds exactly that entry when no
/// earlier entry shares its key.
pub proof fn lemma_lookup_at(m: Seq<(int, int)>, t: int)
    requires
        0 <= t < m.len(),
        forall|i: int| 0 <= i < t ==> (#[trigger] m[i]).0 != m[t].0,
    ensures
        seq_lookup(m, m[t].0) == Option::Some(m[t].1),
    decreases t,
{
    if t == 0 {
    } else {
        assert(m[0].0 != m[t].0);
        assert(m.skip(1)[t - 1] == m[t]);
        assert(forall|i: int| 0 <= i < t - 1 ==> (#[trigger] m.skip(1)[i]).0 != m.skip(1)[t
            - 1].0);
        lemma_lookup_at(m.skip(1), t - 1);
    }
}

/// A successful lookup names an entry: its position is returned.
pub proof fn lemma_lookup_some_index(m: Seq<(int, int)>, k: int) -> (t: int)
    requires
        seq_lookup(m, k) is Some,
    ensures
        0 <= t < m.len(),
        m[t].0 == k,
        seq_lookup(m, k) == Option::Some(m[t].1),
        forall|i: int| 0 <= i < t ==> (#[trigger] m[i]).0 != k,
    decreases m.len(),
{
    if m[0].0 == k {
        0
    } else {
        let t0 = lemma_lookup_some_index(m.skip(1), k);
        assert(m.skip(1)[t0] == m[t0 + 1]);
        assert(forall|i: int| 1 <= i < t0 + 1 ==> (#[trigger] m[i]).0 == m.skip(1)[i - 1].0);
        t0 + 1
    }
}

/// The forward and the inverse map are true inverses on their shared
/// domain: whenever line `k` maps to `v` forward, `v` maps back to `k`.
pub proof fn lemma_maps_inverse(m: Seq<(int, int)>, k: int, v: int)
    requires
        strictly_increasing(m),
        seq_lookup(m, k) == Option::Some(v),
    ensures
        seq_lookup(swap_pairs(m), v) == Option::Some(k),
{
    let t = lemma_lookup_some_index(m, k);
    assert(m[t].1 == v);
    assert(swap_pairs(m)[t] == (v, k));
    assert forall|i: int| 0 <= i < t implies (#[trigger] swap_pairs(m)[i]).0 != v by {
        assert(m[i].1 < m[t].1);
    }
    lemma_lookup_at(swap_pairs(m), t);
}

/// A hunk body of context lines alone yields the identity correspondence:
/// pair `t` is `(t + 1, t + 1)`, and every line number in range maps to
/// itself.
pub proof fn lemma_context_only_identity(cls: Seq<LineClass>)
    requires
        forall|i: int| 0 <= i < cls.len() ==> cls[i] is Context,
    ensures
        corr_pairs(cls).len() == cls.len(),
        forall|t: int| 0 <= t < cls.len() ==> #[trigger] corr_pairs(cls)[t] == (t + 1, t + 1),
        forall|k: int| 1 <= k <= cls.len() ==> seq_lookup(corr_pairs(cls), k) == Option::Some(k),
{
    lemma_corr_identity_from(cls, 1);
    assert forall|k: int| 1 <= k <= cls.len() implies seq_lookup(corr_pairs(cls), k)
        == Option::Some(k) by {
        let m = corr_pairs(cls);
        assert(m[k - 1] == (k, k));
        assert(forall|i: int| 0 <= i < k - 1 ==> (#[trigger] m[i]).0 == i + 1);
        lemma_lookup_at(m, k - 1);
    }
}

/// With context lines alone, counting from `o` on both sides records the
/// pairs `(o + t, o + t)`.
proof fn lemma_corr_identity_from(cls: Seq<LineClass>, o: int)
    requires
        forall|i: int| 0 <= i < cls.len() ==> cls[i] is Context,
    ensures
        corr_pairs_from(cls, o, o).len() == cls.len(),
        forall|t: int|
            0 <= t < cls.len() ==> #[trigger] corr_pairs_from(cls, o, o)[t] == (o + t, o + t),
    decreases cls.len(),
{
    if cls.len() == 0 {
    } else {
        assert(cls[0] is Context);
        lemma_corr_identity_from(cls.skip(1), o + 1);
        let p = corr_pairs_from(cls, o, o);
        let rest = corr_pairs_from(cls.skip(1), o + 1, o + 1);
        assert(forall|t: int| 1 <= t < p.len() ==> p[t] == #[trigger] rest[t - 1]);
    }
}

/// Builds both correspondence maps from a classified hunk body: the first
/// maps original line numbers to edited ones, the second the reverse.
pub fn build_maps(cls: &Vec<LineClass>) -> (r: (IndexMap, IndexMap))
    ensures
        r.0@ == corr_pairs(cls@),
        r.1@ == swap_pairs(corr_pairs(cls@)),
{
    let mut fwd: Vec<(usize, usize)> = Vec::new();
    let mut bwd: Vec<(usize, usize)> = Vec::new();
    let mut no: usize = 0;
    let mut ne: usize = 0;
    let mut i: usize = 0;
    proof {
        assert(cls@.skip(0) =~= cls@);
        assert(int_pairs(fwd@) =~= Seq::<(int, int)>::empty());
        assert(int_pairs(bwd@) =~= Seq::<(int, int)>::empty());
        assert(Seq::<(int, int)>::empty() + corr_pairs(cls@) =~= corr_pairs(cls@));
    }
    while i < cls.len()
        invariant
            i <= cls@.len(),
            no <= i,
            ne <= i,
            corr_pairs(cls@) == int_pairs(fwd@) + corr_pairs_from(
                cls@.skip(i as int),
                no + 1,
                ne + 1,
            ),
            int_pairs(bwd@) == swap_pairs(int_pairs(fwd@)),
        decreases cls@.len() - i,
    {
        let c = cls[i];
        proof {
            assert(cls@.skip(i as int)[0] == cls@[i as int]);
            assert(cls@.skip(i as int).skip(1) =~= cls@.skip(i as int + 1));
        }
        match c {
            LineClass::Context => {
                let ghost old_fwd = fwd@;
                let ghost old_bwd = bwd@;
                fwd.push((no + 1, ne + 1));
                bwd.push((ne + 1, no + 1));
                proof {
                    assert(int_pairs(fwd@) =~= int_pairs(old_fwd).push(
                        (no + 1 as int, ne + 1 as int),
                    ));
                    assert(int_pairs(bwd@) =~= int_pairs(old_bwd).push(
                        (ne + 1 as int, no + 1 as int),
                    ));
                    assert(int_pairs(bwd@) =~= swap_pairs(int_pairs(fwd@)));
                    assert(int_pairs(old_fwd) + (seq![(no + 1 as int, ne + 1 as int)]
                        + corr_pairs_from(cls@.skip(i as int + 1), no + 2, ne + 2)) =~= int_pairs(
                        fwd@,
                    ) + corr_pairs_from(cls@.skip(i as int + 1), no + 2, ne + 2));
                }
                no = no + 1;
                ne = ne + 1;
            },
            LineClass::Added => {
                ne = ne + 1;
            },
            LineClass::Removed => {
                no = no + 1;
            },
        }
        i = i + 1;
    }
    proof {
        assert(cls@.skip(cls@.len() as int) =~= Seq::<LineClass>::empty());
        assert(corr_pairs(cls@) =~= int_pairs(fwd@));
    }
    (IndexMap { entries: fwd }, IndexMap { entries: bwd })
}

/// Builds the two correspondence maps of the unified diff for one file:
/// original-to-edited and edited-to-original. A diff without a hunk
/// header — an unchanged file — yields two empty maps, which the
/// reference rewriter treats as the identity.
pub fn calc_index_map(diff: &str) -> (r: (IndexMap, IndexMap))
    ensures
        r.0@ == corr_pairs(hunk_classes(diff@)),
        r.1@ == swap_pairs(corr_pairs(hunk_classes(diff@))),
        strictly_increasing(r.0@),
        strictly_increasing(r.1@),
{
    let cls = parse_hunk(diff);
    proof {
        lemma_corr_pairs_bounds(cls@, 1, 1);
        let m = corr_pairs(cls@);
        assert forall|i: int, j: int|
            #![trigger swap_pairs(m)[i], swap_pairs(m)[j]]
            0 <= i < j < swap_pairs(m).len() implies swap_pairs(m)[i].0 < swap_pairs(m)[j].0
            && swap_pairs(m)[i].1 < swap_pairs(m)[j].1 by {
            assert(m[i].0 < m[j].0 && m[i].1 < m[j].1);
        }
    }
    build_maps(&cls)
}

} // verus!
