//! Canonical forms of patterns under a whitespace policy, and the figures
//! derived from them: the shortest length and the block size.

use vstd::prelude::*;
use crate::engine::wumanber::SpaceHandling;
use crate::text::{
    normalize_space_chars, normalize_spaces, rows, strip_space_chars, strip_spaces, to_chars, views,
};

verus! {

/// `s` canonicalised under `policy`.
pub open spec fn preprocess(s: Seq<char>, policy: SpaceHandling) -> Seq<char> {
    match policy {
        SpaceHandling::Strict => s,
        SpaceHandling::IgnoreSpaces => strip_spaces(s),
        SpaceHandling::NormalizeSpaces => normalize_spaces(s),
    }
}

/// The canonical forms of `given` under `policy`, in order, without
/// those that are empty.
pub open spec fn kept_patterns(given: Seq<Seq<char>>, policy: SpaceHandling) -> Seq<Seq<char>>
    decreases given.len(),
{
    if given.len() == 0 {
        Seq::empty()
    } else {
        let init = kept_patterns(given.drop_last(), policy);
        let p = preprocess(given.last(), policy);
        if p.len() == 0 {
            init
        } else {
            init.push(p)
        }
    }
}

/// Length of the shortest of `pats`; zero when there is none.
pub open spec fn min_length(pats: Seq<Seq<char>>) -> nat
    decreases pats.len(),
{
    if pats.len() == 0 {
        0
    } else if pats.len() == 1 {
        pats[0].len()
    } else {
        let m = min_length(pats.drop_last());
        if pats.last().len() < m {
            pats.last().len()
        } else {
            m
        }
    }
}

/// The block size derived from the shortest pattern length.
pub open spec fn derived_block_size(min_len: nat) -> nat {
    if min_len == 1 {
        1
    } else if 2 <= min_len <= 3 {
        2
    } else if 4 <= min_len <= 10 {
        3
    } else if min_len == 0 {
        2
    } else {
        4
    }
}

/// The block size chosen for a vocabulary when none is requested: two for a
/// vocabulary without usable patterns, else derived from the shortest one.
pub open spec fn optimal_block_size(given: Seq<Seq<char>>, policy: SpaceHandling) -> nat {
    let kept = kept_patterns(given, policy);
    if kept.len() == 0 {
        2
    } else {
        derived_block_size(min_length(kept))
    }
}

/// The shortest length is a lower bound of every length, and some pattern
/// attains it.
pub proof fn lemma_min_length(pats: Seq<Seq<char>>)
    requires
        pats.len() > 0,
    ensures
        forall|k: int| 0 <= k < pats.len() ==> min_length(pats) <= #[trigger] pats[k].len(),
        exists|k: int| 0 <= k < pats.len() && #[trigger] pats[k].len() == min_length(pats),
    decreases pats.len(),
{
    if pats.len() == 1 {
        assert(pats[0].len() == min_length(pats));
    } else {
        let init = pats.drop_last();
        lemma_min_length(init);
        let w = choose|k: int| 0 <= k < init.len() && #[trigger] init[k].len() == min_length(init);
        assert(init[w] == pats[w]);
        if pats.last().len() < min_length(init) {
            assert(pats[pats.len() - 1].len() == min_length(pats));
        } else {
            assert(pats[w].len() == min_length(pats));
        }
        assert forall|k: int| 0 <= k < pats.len() implies min_length(pats) <= #[trigger] pats[
            k
        ].len() by {
            if k < init.len() {
                assert(init[k] == pats[k]);
            }
        }
    }
}

/// Every kept pattern is non-empty.
pub proof fn lemma_kept_nonempty(given: Seq<Seq<char>>, policy: SpaceHandling)
    ensures
        forall|k: int|
            0 <= k < kept_patterns(given, policy).len() ==> (#[trigger] kept_patterns(
                given,
                policy,
            )[k]).len() > 0,
        kept_patterns(given, policy).len() <= given.len(),
    decreases given.len(),
{
    if given.len() > 0 {
        lemma_kept_nonempty(given.drop_last(), policy);
    }
}

/// Block-size safety: the derived block size is at least one and exceeds
/// neither four nor the length it is derived from.
pub proof fn lemma_derived_block_size(min_len: nat)
    requires
        min_len >= 1,
    ensures
        1 <= derived_block_size(min_len) <= 4,
        derived_block_size(min_len) <= min_len,
{
}

/// Under the strict policy the kept patterns are the terms that have
/// characters.
pub proof fn lemma_kept_strict_members(pats: Seq<Seq<char>>)
    ensures
        forall|w: Seq<char>| #[trigger]
            kept_patterns(pats, SpaceHandling::Strict).contains(w) <==> (pats.contains(w)
                && w.len() > 0),
    decreases pats.len(),
{
    let kept = kept_patterns(pats, SpaceHandling::Strict);
    if pats.len() > 0 {
        let init = pats.drop_last();
        let ki = kept_patterns(init, SpaceHandling::Strict);
        lemma_kept_strict_members(init);
        assert forall|w: Seq<char>| #[trigger] kept.contains(w) <==> (pats.contains(w) && w.len()
            > 0) by {
            assert(ki.contains(w) <==> (init.contains(w) && w.len() > 0));
            if kept.contains(w) {
                let j = choose|j: int| 0 <= j < kept.len() && kept[j] == w;
                if pats.last().len() > 0 && j == kept.len() - 1 {
                    assert(pats[pats.len() - 1] == w);
                } else {
                    assert(ki[j] == w);
                    assert(ki.contains(w));
                    let i = choose|i: int| 0 <= i < init.len() && init[i] == w;
                    assert(pats[i] == w);
                }
            }
            if pats.contains(w) && w.len() > 0 {
                let i = choose|i: int| 0 <= i < pats.len() && pats[i] == w;
                if i == pats.len() - 1 {
                    assert(kept[kept.len() - 1] == w);
                } else {
                    assert(init[i] == w);
                    assert(init.contains(w));
                    assert(ki.contains(w));
                    let j = choose|j: int| 0 <= j < ki.len() && ki[j] == w;
                    assert(kept[j] == w);
                }
            }
        }
    }
}

/// `s` canonicalised under `policy`.
pub fn preprocess_chars(s: &Vec<char>, policy: SpaceHandling) -> (out: Vec<char>)
    ensures
        out@ == preprocess(s@, policy),
{
    match policy {
        SpaceHandling::Strict => s.clone(),
        SpaceHandling::IgnoreSpaces => strip_space_chars(s),
        SpaceHandling::NormalizeSpaces => normalize_space_chars(s),
    }
}

/// The canonical forms of `patterns` under `policy`, without the empty ones.
pub(crate) fn process_patterns(patterns: &Vec<String>, policy: SpaceHandling) -> (out: Vec<Vec<char>>)
    ensures
        rows(out@) == kept_patterns(views(patterns@), policy),
{
    let mut out: Vec<Vec<char>> = Vec::new();
    let mut i: usize = 0;
    assert(rows(out@) =~= kept_patterns(views(patterns@).take(0), policy));
    while i < patterns.len()
        invariant
            i <= patterns.len(),
            rows(out@) == kept_patterns(views(patterns@).take(i as int), policy),
        decreases patterns.len() - i,
    {
        let chars = to_chars(patterns[i].as_str());
        let p = preprocess_chars(&chars, policy);
        proof {
            let v = views(patterns@);
            assert(v.take(i + 1).drop_last() == v.take(i as int));
            assert(v.take(i + 1).last() == patterns@[i as int]@);
        }
        if p.len() > 0 {
            let ghost before = rows(out@);
            out.push(p);
            assert(rows(out@) =~= before.push(p@));
        }
        i += 1;
    }
    assert(views(patterns@).take(patterns.len() as int) == views(patterns@));
    out
}

/// Length of the shortest of `pats`; zero when there is none.
pub(crate) fn shortest_length(pats: &Vec<Vec<char>>) -> (m: usize)
    ensures
        m == min_length(rows(pats@)),
{
    if pats.len() == 0 {
        return 0;
    }
    let mut m: usize = pats[0].len();
    let mut i: usize = 1;
    assert(rows(pats@).take(1)[0] == pats@[0]@);
    while i < pats.len()
        invariant
            1 <= i <= pats.len(),
            m == min_length(rows(pats@).take(i as int)),
        decreases pats.len() - i,
    {
        proof {
            let v = rows(pats@);
            assert(v.take(i + 1).drop_last() == v.take(i as int));
            assert(v.take(i + 1).last() == pats@[i as int]@);
        }
        if pats[i].len() < m {
            m = pats[i].len();
        }
        i += 1;
    }
    assert(rows(pats@).take(pats.len() as int) == rows(pats@));
    m
}

} // verus!
