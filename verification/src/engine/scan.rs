//! What the strict search reports, stated over the patterns and the text
//! alone, and the lemmas by which the block-hash scan is shown to report
//! exactly that: it never skips past a pattern that occurs.

use vstd::prelude::*;
use crate::engine::block_tables::{
    ends_with_hash, hits, is_min_shift, lemma_suffix_list, shift_known, suffix_list, window_shift,
};
use crate::engine::tables::block_hash;
use crate::text::{contains_seq, occurs_at};

verus! {

/// `pat` occurs in `text` with its last character at index `pos`.
pub open spec fn ends_at(text: Seq<char>, pat: Seq<char>, pos: int) -> bool {
    pat.len() <= pos + 1 && occurs_at(text, pat, pos + 1 - pat.len())
}

/// The first pattern, at or after index `from` of the vocabulary, that
/// occurs in `text` with its last character at index `pos`.
pub open spec fn first_ending(pats: Seq<Seq<char>>, text: Seq<char>, pos: int, from: int) -> Option<
    int,
>
    decreases pats.len() - from,
{
    if from < 0 || from >= pats.len() {
        None
    } else if ends_at(text, pats[from], pos) {
        Some(from)
    } else {
        first_ending(pats, text, pos, from + 1)
    }
}

/// The pattern that ends first in `text` at or after index `pos`; where
/// several end there, the first of them in the vocabulary.
pub open spec fn strict_find(pats: Seq<Seq<char>>, text: Seq<char>, pos: int) -> Option<int>
    decreases text.len() - pos,
{
    if pos < 0 || pos >= text.len() {
        None
    } else {
        match first_ending(pats, text, pos, 0) {
            Some(k) => Some(k),
            None => strict_find(pats, text, pos + 1),
        }
    }
}

/// What the strict search reports for `text`: the pattern that ends first;
/// where several end at that place, the first of them in the vocabulary.
pub open spec fn strict_search(pats: Seq<Seq<char>>, text: Seq<char>) -> Option<int> {
    strict_find(pats, text, 0)
}

/// No pattern occurs in `text` with its last character before index `pos`.
pub open spec fn none_ends_before(pats: Seq<Seq<char>>, text: Seq<char>, pos: int) -> bool {
    forall|k: int, e: int|
        0 <= k < pats.len() && 0 <= e < pos ==> !#[trigger] ends_at(text, pats[k], e)
}

/// No pattern occurs in `text` with its last character at an index from
/// `from` up to, but not including, `to`.
pub open spec fn none_ends_between(pats: Seq<Seq<char>>, text: Seq<char>, from: int, to: int) -> bool {
    forall|k: int, e: int|
        0 <= k < pats.len() && from <= e < to ==> !#[trigger] ends_at(text, pats[k], e)
}

/// Every pattern has at least `m` characters.
pub open spec fn long_enough(pats: Seq<Seq<char>>, m: int) -> bool {
    forall|k: int| 0 <= k < pats.len() ==> (#[trigger] pats[k]).len() >= m
}

/// The first candidate of `cands`, from position `from` on, whose pattern
/// occurs in `text` ending at `pos`.
pub open spec fn first_candidate(
    pats: Seq<Seq<char>>,
    cands: Seq<usize>,
    text: Seq<char>,
    pos: int,
    from: int,
) -> Option<int>
    decreases cands.len() - from,
{
    if from < 0 || from >= cands.len() {
        None
    } else if cands[from] < pats.len() && ends_at(text, pats[cands[from] as int], pos) {
        Some(cands[from] as int)
    } else {
        first_candidate(pats, cands, text, pos, from + 1)
    }
}

/// The candidates listed under the hash of the block of `text` that ends at
/// `pos`, tried against the text ending at `pos`.
pub open spec fn probe(pats: Seq<Seq<char>>, b: int, text: Seq<char>, pos: int) -> Option<int> {
    let h = block_hash(text.subrange(pos + 1 - b, pos + 1));
    first_candidate(pats, suffix_list(pats, b, h, pats.len() as int), text, pos, 0)
}

/// What [`first_ending`] finds ends at `pos`, and nothing before it in the
/// vocabulary does; where it finds nothing, nothing ends at `pos`.
pub proof fn lemma_first_ending(pats: Seq<Seq<char>>, text: Seq<char>, pos: int, from: int)
    requires
        0 <= from,
    ensures
        match first_ending(pats, text, pos, from) {
            Some(k) => from <= k < pats.len() && ends_at(text, pats[k], pos) && forall|q: int|
                from <= q < k ==> !#[trigger] ends_at(text, pats[q], pos),
            None => forall|q: int|
                from <= q < pats.len() ==> !#[trigger] ends_at(text, pats[q], pos),
        },
    decreases pats.len() - from,
{
    if from < pats.len() && !ends_at(text, pats[from], pos) {
        lemma_first_ending(pats, text, pos, from + 1);
    }
}

/// The strict search is sound and complete: what it reports occurs in the
/// text and no pattern ends before it does; it reports nothing only where
/// no pattern with characters occurs in the text.
pub proof fn lemma_strict_search(pats: Seq<Seq<char>>, text: Seq<char>)
    ensures
        match strict_search(pats, text) {
            Some(k) => 0 <= k < pats.len() && contains_seq(text, pats[k]) && exists|e: int|
                #[trigger] ends_at(text, pats[k], e) && none_ends_before(pats, text, e),
            None => forall|k: int|
                0 <= k < pats.len() && pats[k].len() > 0 ==> !contains_seq(
                    text,
                    #[trigger] pats[k],
                ),
        },
{
    lemma_strict_find(pats, text, 0);
    match strict_search(pats, text) {
        Some(k) => {
            let e = choose|e: int|
                0 <= e && #[trigger] ends_at(text, pats[k], e) && none_ends_before(pats, text, e);
            assert(occurs_at(text, pats[k], e + 1 - pats[k].len()));
        },
        None => {
            assert forall|k: int| 0 <= k < pats.len() && pats[k].len() > 0 implies !contains_seq(
                text,
                #[trigger] pats[k],
            ) by {
                if contains_seq(text, pats[k]) {
                    let i = choose|i: int| occurs_at(text, pats[k], i);
                    assert(ends_at(text, pats[k], i + pats[k].len() - 1));
                }
            }
        },
    }
}

proof fn lemma_strict_find(pats: Seq<Seq<char>>, text: Seq<char>, pos: int)
    requires
        0 <= pos,
        none_ends_before(pats, text, pos),
    ensures
        match strict_find(pats, text, pos) {
            Some(k) => 0 <= k < pats.len() && exists|e: int|
                0 <= e && #[trigger] ends_at(text, pats[k], e) && none_ends_before(pats, text, e),
            None => forall|k: int, e: int|
                0 <= k < pats.len() && 0 <= e ==> !#[trigger] ends_at(text, pats[k], e),
        },
    decreases text.len() - pos,
{
    if pos >= text.len() {
        assert forall|k: int, e: int| 0 <= k < pats.len() && 0 <= e implies !#[trigger] ends_at(
            text,
            pats[k],
            e,
        ) by {}
    } else {
        lemma_first_ending(pats, text, pos, 0);
        match first_ending(pats, text, pos, 0) {
            Some(k) => {
                assert(ends_at(text, pats[k], pos) && none_ends_before(pats, text, pos));
            },
            None => {
                assert(none_ends_before(pats, text, pos + 1));
                lemma_strict_find(pats, text, pos + 1);
            },
        }
    }
}

/// Where no pattern ends from `pos` up to `next`, the search from `pos`
/// is the search from `next`.
pub proof fn lemma_find_skip(pats: Seq<Seq<char>>, text: Seq<char>, pos: int, next: int)
    requires
        0 <= pos <= next,
        none_ends_between(pats, text, pos, next),
    ensures
        strict_find(pats, text, pos) == strict_find(pats, text, next),
    decreases next - pos,
{
    if pos < next {
        if pos < text.len() {
            lemma_first_ending(pats, text, pos, 0);
            if first_ending(pats, text, pos, 0) is Some {
                let k = first_ending(pats, text, pos, 0)->Some_0;
                assert(ends_at(text, pats[k], pos));
            }
        }
        lemma_find_skip(pats, text, pos + 1, next);
    }
}

pub proof fn lemma_first_candidate(
    pats: Seq<Seq<char>>,
    cands: Seq<usize>,
    text: Seq<char>,
    pos: int,
    from: int,
)
    requires
        0 <= from,
    ensures
        match first_candidate(pats, cands, text, pos, from) {
            Some(k) => 0 <= k < pats.len() && ends_at(text, pats[k], pos) && exists|j: int|
                from <= j < cands.len() && #[trigger] cands[j] == k && forall|q: int|
                    from <= q < j && cands[q] < pats.len() ==> !ends_at(
                        text,
                        pats[#[trigger] cands[q] as int],
                        pos,
                    ),
            None => forall|j: int|
                from <= j < cands.len() && cands[j] < pats.len() ==> !ends_at(
                    text,
                    pats[#[trigger] cands[j] as int],
                    pos,
                ),
        },
    decreases cands.len() - from,
{
    if from < cands.len() {
        if cands[from] < pats.len() && ends_at(text, pats[cands[from] as int], pos) {
            assert(cands[from] == cands[from] as int);
        } else {
            lemma_first_candidate(pats, cands, text, pos, from + 1);
            match first_candidate(pats, cands, text, pos, from + 1) {
                Some(k) => {
                    let j = choose|j: int|
                        from + 1 <= j < cands.len() && #[trigger] cands[j] == k && forall|q: int|
                            from + 1 <= q < j && cands[q] < pats.len() ==> !ends_at(
                                text,
                                pats[#[trigger] cands[q] as int],
                                pos,
                            );
                    assert(from <= j < cands.len() && cands[j] == k);
                    assert forall|q: int| from <= q < j && cands[q] < pats.len() implies !ends_at(
                        text,
                        pats[#[trigger] cands[q] as int],
                        pos,
                    ) by {}
                },
                None => {},
            }
        }
    }
}

/// A probe confirms only what ends at its position.

/// A pattern that ends at `e`, not before `pos` and near enough for the
/// block that ends at `pos` to lie inside it, has that block as one of its
/// blocks, at distance `e - pos` from its end.
proof fn lemma_block_inside(pats: Seq<Seq<char>>, b: int, text: Seq<char>, pos: int, k: int, e: int)
    requires
        0 <= k < pats.len(),
        0 <= b <= pats[k].len(),
        b <= pos + 1,
        pos <= e <= pos + (pats[k].len() - b),
        ends_at(text, pats[k], e),
    ensures
        hits(
            pats,
            b,
            block_hash(text.subrange(pos + 1 - b, pos + 1)),
            k,
            pats[k].len() - b - (e - pos),
        ),
        window_shift(pats, b, k, pats[k].len() - b - (e - pos)) == e - pos,
{
    let m = pats[k].len() as int;
    let start = e + 1 - m;
    let i = m - b - (e - pos);
    assert(pats[k] == text.subrange(start, start + m));
    assert(pats[k].subrange(i, i + b) =~= text.subrange(pos + 1 - b, pos + 1));
}

/// Where the block that ends at `pos` has no shift entry, no pattern ends
/// at `pos` or within the next `m - b` positions.
pub proof fn lemma_skip_without_entry(
    pats: Seq<Seq<char>>,
    b: int,
    m: int,
    text: Seq<char>,
    pos: int,
)
    requires
        long_enough(pats, m),
        0 <= b <= m,
        b <= pos + 1,
        !shift_known(pats, b, block_hash(text.subrange(pos + 1 - b, pos + 1))),
    ensures
        forall|k: int, e: int|
            0 <= k < pats.len() && pos <= e < pos + (m - b + 1) ==> !#[trigger] ends_at(
                text,
                pats[k],
                e,
            ),
{
    let h = block_hash(text.subrange(pos + 1 - b, pos + 1));
    assert forall|k: int, e: int|
        0 <= k < pats.len() && pos <= e < pos + (m - b + 1) implies !#[trigger] ends_at(
        text,
        pats[k],
        e,
    ) by {
        if ends_at(text, pats[k], e) {
            lemma_block_inside(pats, b, text, pos, k, e);
            assert(hits(pats, b, h, k, pats[k].len() - b - (e - pos)));
        }
    }
}

/// Where the block that ends at `pos` has the least shift `d`, no pattern
/// ends at `pos` or behind it within fewer than `d` positions, as far as
/// `m - b` positions behind `pos`. A shift is therefore safe to take up to
/// `m - b + 1`, the skip for a block without entry.
pub proof fn lemma_skip_by_shift(
    pats: Seq<Seq<char>>,
    b: int,
    m: int,
    text: Seq<char>,
    pos: int,
    d: int,
)
    requires
        long_enough(pats, m),
        0 <= b <= m,
        b <= pos + 1,
        is_min_shift(pats, b, block_hash(text.subrange(pos + 1 - b, pos + 1)), d),
    ensures
        0 <= d,
        forall|k: int, e: int|
            0 <= k < pats.len() && pos <= e < pos + d && e < pos + (m - b + 1)
                ==> !#[trigger] ends_at(text, pats[k], e),
{
    let h = block_hash(text.subrange(pos + 1 - b, pos + 1));
    let (wk, wi) = choose|k: int, i: int|
        #[trigger] hits(pats, b, h, k, i) && window_shift(pats, b, k, i) == d;
    assert forall|k: int, e: int|
        0 <= k < pats.len() && pos <= e < pos + d && e < pos + (m - b + 1)
            implies !#[trigger] ends_at(text, pats[k], e) by {
        if ends_at(text, pats[k], e) {
            lemma_block_inside(pats, b, text, pos, k, e);
            assert(hits(pats, b, h, k, pats[k].len() - b - (e - pos)));
        }
    }
}

/// The probe at `pos` confirms exactly the first pattern of the vocabulary
/// that ends at `pos`: every pattern that ends there is listed under the
/// hash of the block, and the list is in vocabulary order.
pub proof fn lemma_probe(pats: Seq<Seq<char>>, b: int, m: int, text: Seq<char>, pos: int)
    requires
        long_enough(pats, m),
        pats.len() <= usize::MAX,
        0 <= b <= m,
        b <= pos + 1,
    ensures
        probe(pats, b, text, pos) == first_ending(pats, text, pos, 0),
{
    let h = block_hash(text.subrange(pos + 1 - b, pos + 1));
    let cands = suffix_list(pats, b, h, pats.len() as int);
    lemma_first_candidate(pats, cands, text, pos, 0);
    lemma_suffix_list(pats, b, h, pats.len() as int);
    lemma_first_ending(pats, text, pos, 0);
    // every pattern that ends at `pos` is a candidate
    assert forall|k: int| 0 <= k < pats.len() && ends_at(text, pats[k], pos) implies exists|
        j: int,
    |
        0 <= j < cands.len() && #[trigger] cands[j] == k by {
        lemma_block_inside(pats, b, text, pos, k, pos);
        assert(pats[k].subrange(pats[k].len() - b, pats[k].len() - b + b) == pats[k].subrange(
            pats[k].len() - b,
            pats[k].len() as int,
        ));
        assert(ends_with_hash(pats, b, h, k));
    }
    match probe(pats, b, text, pos) {
        Some(k) => {
            let j = choose|j: int|
                0 <= j < cands.len() && #[trigger] cands[j] == k && forall|q: int|
                    0 <= q < j && cands[q] < pats.len() ==> !ends_at(
                        text,
                        pats[#[trigger] cands[q] as int],
                        pos,
                    );
            assert forall|q: int| 0 <= q < k implies !#[trigger] ends_at(text, pats[q], pos) by {
                if ends_at(text, pats[q], pos) {
                    let jq = choose|jq: int| 0 <= jq < cands.len() && #[trigger] cands[jq] == q;
                    if jq < j {
                        assert(!ends_at(text, pats[cands[jq] as int], pos));
                    } else if jq > j {
                        assert(cands[j] < cands[jq]);
                    }
                }
            }
            let f = first_ending(pats, text, pos, 0);
            assert(f is Some);
            let kf = f->Some_0;
            if kf < k {
                assert(!ends_at(text, pats[kf], pos));
            } else if kf > k {
                assert(!ends_at(text, pats[k], pos));
            }
        },
        None => {
            if first_ending(pats, text, pos, 0) is Some {
                let kf = first_ending(pats, text, pos, 0)->Some_0;
                let jk = choose|jk: int| 0 <= jk < cands.len() && #[trigger] cands[jk] == kf;
                assert(!ends_at(text, pats[cands[jk] as int], pos));
            }
        },
    }
}

} // verus!
