//! Multi-pattern matching back ends and the dispatcher that selects one.

pub mod backends;
pub mod block_tables;
pub mod canon;
pub mod scan;
pub mod tables;
pub mod wumanber;

use vstd::prelude::*;
use std::sync::Arc;
use aho_corasick::AhoCorasick;
use regex::Regex;
use crate::engine::backends::{
    ac_all, ac_build, ac_builds, ac_find, ac_find_all, ac_first, ac_leftmost_longest, ac_patterns,
    escaped, regex_all, regex_compiles, regex_escape, regex_find, regex_find_all, regex_first,
    regex_new, regex_plain, regex_source,
};
use crate::engine::canon::{
    kept_patterns, lemma_kept_strict_members, min_length, optimal_block_size,
};
use crate::engine::scan::{lemma_strict_search, strict_search};
use crate::engine::tables::suffix_slot_size;
use crate::engine::wumanber::{
    hit_strings, is_hit, lemma_hit_strings, mask_each, matches_before, memory_estimate, remove_each,
    total_bytes, Match, SpaceHandling, WuManber,
};
use crate::estimate::{capped, lemma_capped_product, lemma_capped_sum, sat_add, sat_mul};
use crate::text::{
    append_chars, byte_length, byte_offset, byte_slice, char_index_at, char_offsets, clone_strings,
    contains_seq, from_chars, index_of_byte, lemma_byte_slice_valid, lemma_char_index_at, repeat,
    repeat_char, slice_bytes, to_chars, valid_span, views,
};

verus! {

/// The back ends the dispatcher can run.
#[derive(Debug, Clone, Copy, PartialEq, Eq, Structural)]
pub enum MatchAlgorithm {
    /// The bundled general multi-pattern automaton.
    AhoCorasick,
    /// The block-hash matcher.
    WuManber,
    /// One regular expression that is the alternation of all terms.
    Regex,
}

/// A match with the text it covers and its byte interval.
#[derive(Debug, Clone)]
pub struct MatchInfo {
    pub pattern: String,
    pub start: usize,
    pub end: usize,
}

/// What the dispatcher reports about itself.
#[derive(Debug, Clone)]
pub struct EngineStats {
    pub algorithm: MatchAlgorithm,
    pub pattern_count: usize,
    pub memory_usage: usize,
}

/// The back end favoured for a vocabulary of `word_count` terms: the
/// block-hash matcher up to 100, the automaton up to 10 000, the regular
/// expression beyond.
pub open spec fn recommended(word_count: nat) -> MatchAlgorithm {
    if word_count <= 100 {
        MatchAlgorithm::WuManber
    } else if word_count <= 10_000 {
        MatchAlgorithm::AhoCorasick
    } else {
        MatchAlgorithm::Regex
    }
}

/// The regular expression source for a vocabulary: the escaped terms joined
/// by `|`.
pub open spec fn alternation(pats: Seq<Seq<char>>) -> Seq<char>
    decreases pats.len(),
{
    if pats.len() == 0 {
        Seq::empty()
    } else if pats.len() == 1 {
        escaped(pats[0])
    } else {
        alternation(pats.drop_last()).push('|') + escaped(pats.last())
    }
}

/// The terms of a vocabulary that can match: those that have characters.
/// The automaton and the regular expression are built from these alone.
pub open spec fn usable(pats: Seq<Seq<char>>) -> Seq<Seq<char>> {
    kept_patterns(pats, SpaceHandling::Strict)
}

/// The back end in force after a build for `requested`: the requested one,
/// unless it cannot be constructed from the usable terms, in which case the
/// block-hash matcher takes over. A vocabulary without usable terms builds
/// nothing and keeps the request.
pub open spec fn resolved(requested: MatchAlgorithm, pats: Seq<Seq<char>>) -> MatchAlgorithm {
    match requested {
        MatchAlgorithm::AhoCorasick => if usable(pats).len() > 0 && !ac_builds(usable(pats)) {
            MatchAlgorithm::WuManber
        } else {
            MatchAlgorithm::AhoCorasick
        },
        MatchAlgorithm::WuManber => MatchAlgorithm::WuManber,
        MatchAlgorithm::Regex => if usable(pats).len() > 0 && !regex_compiles(
            alternation(usable(pats)),
        ) {
            MatchAlgorithm::WuManber
        } else {
            MatchAlgorithm::Regex
        },
    }
}

/// The vocabulary a strict block-hash matcher built from `pats` retains:
/// all of it, or nothing when every term is empty.
pub open spec fn retained(pats: Seq<Seq<char>>) -> Seq<Seq<char>> {
    if kept_patterns(pats, SpaceHandling::Strict).len() == 0 {
        Seq::empty()
    } else {
        pats
    }
}

/// What a strict block-hash matcher built from `pats` reports as the first
/// match in `text`: the term with characters that ends first in the text;
/// where several end at that place, the first of them in the vocabulary.
pub open spec fn strict_first(pats: Seq<Seq<char>>, text: Seq<char>) -> Option<Seq<char>> {
    let kept = kept_patterns(pats, SpaceHandling::Strict);
    match strict_search(kept, text) {
        Some(k) => Some(kept[k]),
        None => None,
    }
}

/// Strict-mode correctness: the strict block-hash matcher reports a term
/// exactly when a term with characters occurs in the text, and what it
/// reports is a term of the vocabulary that occurs.
pub proof fn lemma_strict_first(pats: Seq<Seq<char>>, text: Seq<char>)
    ensures
        match strict_first(pats, text) {
            Some(w) => w.len() > 0 && pats.contains(w) && contains_seq(text, w),
            None => forall|k: int|
                0 <= k < pats.len() && pats[k].len() > 0 ==> !contains_seq(text, #[trigger] pats[k]),
        },
{
    let kept = kept_patterns(pats, SpaceHandling::Strict);
    lemma_strict_search(kept, text);
    lemma_kept_strict_members(pats);
    match strict_search(kept, text) {
        Some(k) => {
            assert(kept.contains(kept[k]));
        },
        None => {
            assert forall|k: int| 0 <= k < pats.len() && pats[k].len() > 0 implies !contains_seq(
                text,
                #[trigger] pats[k],
            ) by {
                assert(pats.contains(pats[k]));
                assert(kept.contains(pats[k]));
                let j = choose|j: int| 0 <= j < kept.len() && kept[j] == pats[k];
                assert(!contains_seq(text, kept[j]));
            }
        },
    }
}

/// On the block-hash back end the containment test agrees with the list of
/// all matches: a first match is reported exactly when the list is not
/// empty.
pub proof fn lemma_contains_any_agrees(pats: Seq<Seq<char>>, text: Seq<char>)
    ensures
        first_match_of(MatchAlgorithm::WuManber, pats, text) is Some <==> all_matches_of(
            MatchAlgorithm::WuManber,
            pats,
            text,
        ).len() > 0,
{
    lemma_strict_first(pats, text);
    let kept = kept_patterns(pats, SpaceHandling::Strict);
    lemma_kept_strict_members(pats);
    let r = retained(pats);
    lemma_hit_strings(r, SpaceHandling::Strict, text, r.len() as int);
    if pats.len() > 0 {
        if strict_first(pats, text) is Some {
            let w = strict_first(pats, text)->Some_0;
            let i = choose|i: int| 0 <= i < pats.len() && pats[i] == w;
            assert(kept.contains(w));
            assert(r == pats);
            assert(is_hit(r, SpaceHandling::Strict, text, i));
        } else if all_matches_of(MatchAlgorithm::WuManber, pats, text).len() > 0 {
            let i = choose|i: int| 0 <= i < r.len() && is_hit(r, SpaceHandling::Strict, text, i);
            assert(r == pats);
            assert(pats[i].len() > 0 && contains_seq(text, pats[i]));
        }
    }
}

/// The character indices between which a byte span lies, if both of its
/// ends are character boundaries and the first does not exceed the second.
pub open spec fn span_range(text: Seq<char>, start: int, end: int) -> Option<(int, int)> {
    match (char_index_at(text, start, 0), char_index_at(text, end, 0)) {
        (Some(i), Some(j)) => if i <= j {
            Some((i, j))
        } else {
            None
        },
        _ => None,
    }
}

/// What takes the place of a stretch of `n` characters: `n` copies of the
/// mask character, or nothing where there is none.
pub open spec fn patch(fill: Option<char>, n: int) -> Seq<char> {
    match fill {
        Some(c) => repeat_char(c, n as nat),
        None => Seq::empty(),
    }
}

/// `text` from character index `cursor` on, with the stretches under the
/// spans from the `k`-th on patched. A span that is not on character
/// boundaries, or that starts before the one before it has ended, is passed
/// over.
pub open spec fn splice_from(
    text: Seq<char>,
    spans: Seq<(usize, usize)>,
    fill: Option<char>,
    k: int,
    cursor: int,
) -> Seq<char>
    decreases spans.len() - k,
{
    if k < 0 || k >= spans.len() {
        text.subrange(cursor, text.len() as int)
    } else {
        match span_range(text, spans[k].0 as int, spans[k].1 as int) {
            Some(range) => if cursor <= range.0 {
                text.subrange(cursor, range.0) + patch(fill, range.1 - range.0) + splice_from(
                    text,
                    spans,
                    fill,
                    k + 1,
                    range.1,
                )
            } else {
                splice_from(text, spans, fill, k + 1, cursor)
            },
            None => splice_from(text, spans, fill, k + 1, cursor),
        }
    }
}

/// The mask character a replacement stands for: its first character, or
/// none where the replacement is empty.
pub open spec fn fill_of(with: Seq<char>) -> Option<char> {
    if with.len() == 0 {
        None
    } else {
        Some(with[0])
    }
}

/// Masking keeps every character in its place: a stretch of `L` characters
/// under a span gives way to `L` copies of the mask character, and what
/// lies outside the spans stays.
pub proof fn lemma_splice_keeps_places(
    text: Seq<char>,
    spans: Seq<(usize, usize)>,
    c: char,
    k: int,
    cursor: int,
)
    requires
        0 <= k,
        0 <= cursor <= text.len(),
    ensures
        splice_from(text, spans, Some(c), k, cursor).len() == text.len() - cursor,
        forall|p: int|
            0 <= p < text.len() - cursor ==> #[trigger] splice_from(text, spans, Some(c), k, cursor)[p]
                == text[cursor + p] || splice_from(text, spans, Some(c), k, cursor)[p] == c,
    decreases spans.len() - k,
{
    if k < spans.len() {
        lemma_char_index_at(text, spans[k].0 as int, 0);
        lemma_char_index_at(text, spans[k].1 as int, 0);
        match span_range(text, spans[k].0 as int, spans[k].1 as int) {
            Some(range) => {
                if cursor <= range.0 {
                    lemma_splice_keeps_places(text, spans, c, k + 1, range.1);
                } else {
                    lemma_splice_keeps_places(text, spans, c, k + 1, cursor);
                }
            },
            None => {
                lemma_splice_keeps_places(text, spans, c, k + 1, cursor);
            },
        }
    }
}

/// `text` with the stretches under `spans` masked by `fill`, or removed
/// where there is no mask character.
pub fn splice_spans(text: &str, spans: &Vec<(usize, usize)>, fill: Option<char>) -> (r: String)
    ensures
        r@ == splice_from(text@, spans@, fill, 0, 0),
        fill is Some ==> r@.len() == text@.len(),
        fill is Some ==> forall|p: int|
            0 <= p < text@.len() ==> #[trigger] r@[p] == text@[p] || r@[p] == fill->Some_0,
{
    let (chars, offsets) = char_offsets(text);
    let n = chars.len();
    let mut out: Vec<char> = Vec::new();
    let mut cursor: usize = 0;
    let mut k: usize = 0;
    while k < spans.len()
        invariant
            k <= spans.len(),
            cursor <= n,
            n == chars@.len(),
            chars@ == text@,
            offsets@.len() == n + 1,
            forall|j: int| 0 <= j <= n ==> offsets@[j] == byte_offset(chars@, j),
            out@ + splice_from(text@, spans@, fill, k as int, cursor as int) == splice_from(
                text@,
                spans@,
                fill,
                0,
                0,
            ),
        decreases spans.len() - k,
    {
        let span = spans[k];
        let ghost before = out@;
        let ghost rest = splice_from(text@, spans@, fill, k as int, cursor as int);
        match index_of_byte(&chars, &offsets, span.0) {
            Some(i) => match index_of_byte(&chars, &offsets, span.1) {
                Some(j) => {
                    if i <= j && cursor <= i {
                        append_range(&mut out, &chars, cursor, i);
                        match fill {
                            Some(c) => {
                                let mask = repeat(c, j - i);
                                append_chars(&mut out, &mask);
                            },
                            None => {},
                        }
                        assert(out@ =~= before + (text@.subrange(cursor as int, i as int) + patch(
                            fill,
                            j - i,
                        )));
                        cursor = j;
                        assert(out@ + splice_from(text@, spans@, fill, k + 1, cursor as int)
                            =~= before + rest);
                    }
                },
                None => {},
            },
            None => {},
        }
        k += 1;
    }
    let ghost before = out@;
    append_range(&mut out, &chars, cursor, n);
    proof {
        assert(out@ =~= before + text@.subrange(cursor as int, n as int));
        match fill {
            Some(c) => {
                lemma_splice_keeps_places(text@, spans@, c, 0, 0);
            },
            None => {},
        }
    }
    from_chars(&out)
}

/// Appends the characters of `chars` from index `from` up to index `to`.
fn append_range(out: &mut Vec<char>, chars: &Vec<char>, from: usize, to: usize)
    requires
        from <= to <= chars@.len(),
    ensures
        final(out)@ == old(out)@ + chars@.subrange(from as int, to as int),
{
    let mut i: usize = from;
    assert(chars@.subrange(from as int, from as int).len() == 0);
    while i < to
        invariant
            from <= i <= to <= chars@.len(),
            out@ == old(out)@ + chars@.subrange(from as int, i as int),
        decreases to - i,
    {
        out.push(chars[i]);
        i += 1;
        assert(chars@.subrange(from as int, i as int) =~= chars@.subrange(from as int, i - 1).push(
            chars@[i - 1],
        ));
    }
}

/// The texts between the spans, for the first `n` of `spans`, in order.
/// Spans that are not on character boundaries yield nothing.
pub open spec fn texts_of(text: Seq<char>, spans: Seq<(usize, usize)>, n: int) -> Seq<Seq<char>>
    decreases n,
{
    if n <= 0 {
        Seq::empty()
    } else {
        match byte_slice(text, spans[n - 1].0 as int, spans[n - 1].1 as int) {
            Some(p) => texts_of(text, spans, n - 1).push(p),
            None => texts_of(text, spans, n - 1),
        }
    }
}

/// The mathematical content of a [`MatchInfo`].
pub open spec fn info_view(m: MatchInfo) -> (Seq<char>, usize, usize) {
    (m.pattern@, m.start, m.end)
}

/// The mathematical contents of a list of [`MatchInfo`].
pub open spec fn info_views(v: Seq<MatchInfo>) -> Seq<(Seq<char>, usize, usize)> {
    Seq::new(v.len(), |i: int| info_view(v[i]))
}

/// The match records for the first `n` of `spans`, in order: the text
/// between the offsets, and the offsets. Spans that are not on character
/// boundaries yield nothing.
pub open spec fn infos_of(text: Seq<char>, spans: Seq<(usize, usize)>, n: int) -> Seq<
    (Seq<char>, usize, usize),
>
    decreases n,
{
    if n <= 0 {
        Seq::empty()
    } else {
        match byte_slice(text, spans[n - 1].0 as int, spans[n - 1].1 as int) {
            Some(p) => infos_of(text, spans, n - 1).push((p, spans[n - 1].0, spans[n - 1].1)),
            None => infos_of(text, spans, n - 1),
        }
    }
}

/// The record is a match in `text`: its offsets delimit a stretch of the
/// text on character boundaries, and its pattern is that stretch.
pub open spec fn is_match_in(text: Seq<char>, m: MatchInfo) -> bool {
    &&& valid_span(text, m.start as int, m.end as int)
    &&& byte_slice(text, m.start as int, m.end as int) == Some(m.pattern@)
}

/// The spans of a list of matches.
pub open spec fn spans_of(matches: Seq<Match>) -> Seq<(usize, usize)> {
    Seq::new(matches.len(), |i: int| (matches[i].start, matches[i].end))
}

/// The texts that `spans` cover in `text`, in order.
pub fn collect_texts(text: &str, spans: &Vec<(usize, usize)>) -> (r: Vec<String>)
    ensures
        views(r@) == texts_of(text@, spans@, spans@.len() as int),
{
    let (chars, offsets) = char_offsets(text);
    let mut out: Vec<String> = Vec::new();
    let mut i: usize = 0;
    assert(views(out@) =~= texts_of(text@, spans@, 0));
    while i < spans.len()
        invariant
            i <= spans.len(),
            chars@ == text@,
            offsets@.len() == chars@.len() + 1,
            forall|j: int| 0 <= j <= chars@.len() ==> offsets@[j] == byte_offset(chars@, j),
            views(out@) == texts_of(text@, spans@, i as int),
        decreases spans.len() - i,
    {
        let span = spans[i];
        match slice_bytes(&chars, &offsets, span.0, span.1) {
            Some(p) => {
                let ghost before = views(out@);
                out.push(from_chars(&p));
                assert(views(out@) =~= before.push(p@));
            },
            None => {},
        }
        i += 1;
    }
    out
}

/// The match records for `spans` in `text`, in order.
pub fn collect_infos(text: &str, spans: &Vec<(usize, usize)>) -> (r: Vec<MatchInfo>)
    ensures
        info_views(r@) == infos_of(text@, spans@, spans@.len() as int),
        forall|j: int| 0 <= j < r@.len() ==> is_match_in(text@, #[trigger] r@[j]),
{
    let (chars, offsets) = char_offsets(text);
    let mut out: Vec<MatchInfo> = Vec::new();
    let mut i: usize = 0;
    assert(info_views(out@) =~= infos_of(text@, spans@, 0));
    while i < spans.len()
        invariant
            i <= spans.len(),
            chars@ == text@,
            offsets@.len() == chars@.len() + 1,
            forall|j: int| 0 <= j <= chars@.len() ==> offsets@[j] == byte_offset(chars@, j),
            info_views(out@) == infos_of(text@, spans@, i as int),
            forall|j: int| 0 <= j < out@.len() ==> is_match_in(text@, #[trigger] out@[j]),
        decreases spans.len() - i,
    {
        let span = spans[i];
        match slice_bytes(&chars, &offsets, span.0, span.1) {
            Some(p) => {
                let ghost before = info_views(out@);
                let info = MatchInfo { pattern: from_chars(&p), start: span.0, end: span.1 };
                proof {
                    lemma_byte_slice_valid(text@, span.0 as int, span.1 as int);
                }
                out.push(info);
                assert(info_views(out@) =~= before.push((p@, span.0, span.1)));
            },
            None => {},
        }
        i += 1;
    }
    out
}

/// What an engine running `backend` over `pats` reports as the first match
/// in `text`: nothing for a vocabulary without usable terms; else the text
/// under the first span of the automaton or of the regular expression, each
/// built from the usable terms, or what the block-hash matcher reports.
pub open spec fn first_match_of(backend: MatchAlgorithm, pats: Seq<Seq<char>>, text: Seq<char>) -> Option<
    Seq<char>,
> {
    if usable(pats).len() == 0 {
        None
    } else {
        match backend {
            MatchAlgorithm::AhoCorasick => match ac_first(usable(pats), text) {
                Some(span) => byte_slice(text, span.0 as int, span.1 as int),
                None => None,
            },
            MatchAlgorithm::WuManber => strict_first(pats, text),
            MatchAlgorithm::Regex => match regex_first(alternation(usable(pats)), text) {
                Some(span) => byte_slice(text, span.0 as int, span.1 as int),
                None => None,
            },
        }
    }
}

/// What an engine running `backend` over `pats` reports as all matches in
/// `text`: the texts under the successive spans of the automaton or of the
/// regular expression, or the terms the block-hash matcher finds, in
/// vocabulary order.
pub open spec fn all_matches_of(backend: MatchAlgorithm, pats: Seq<Seq<char>>, text: Seq<char>) -> Seq<
    Seq<char>,
> {
    if usable(pats).len() == 0 {
        Seq::empty()
    } else {
        match backend {
            MatchAlgorithm::AhoCorasick => texts_of(
                text,
                ac_all(usable(pats), text),
                ac_all(usable(pats), text).len() as int,
            ),
            MatchAlgorithm::WuManber => hit_strings(
                retained(pats),
                SpaceHandling::Strict,
                text,
                retained(pats).len() as int,
            ),
            MatchAlgorithm::Regex => texts_of(
                text,
                regex_all(alternation(usable(pats)), text),
                regex_all(alternation(usable(pats)), text).len() as int,
            ),
        }
    }
}

/// The byte spans an engine running `backend` over `pats` reports in
/// `text`.
pub open spec fn spans_in(backend: MatchAlgorithm, pats: Seq<Seq<char>>, text: Seq<char>) -> Seq<
    (usize, usize),
> {
    if usable(pats).len() == 0 {
        Seq::empty()
    } else {
        match backend {
            MatchAlgorithm::AhoCorasick => ac_all(usable(pats), text),
            MatchAlgorithm::WuManber => spans_of(
                matches_before(text, retained(pats), text.len() as int),
            ),
            MatchAlgorithm::Regex => regex_all(alternation(usable(pats)), text),
        }
    }
}

/// `text` after an engine running `backend` over `pats` has replaced every
/// match by `with`. Replacement is character for character: with a
/// replacement that has characters, each match gives way to as many copies
/// of its first character as the match has characters; an empty replacement
/// removes the matches. The matches of the automaton and of the regular
/// expression are the successive spans they report; the block-hash matcher
/// works through the vocabulary term by term.
pub open spec fn replaced_by(
    backend: MatchAlgorithm,
    pats: Seq<Seq<char>>,
    text: Seq<char>,
    with: Seq<char>,
) -> Seq<char> {
    if usable(pats).len() == 0 {
        text
    } else {
        match backend {
            MatchAlgorithm::AhoCorasick => splice_from(
                text,
                ac_all(usable(pats), text),
                fill_of(with),
                0,
                0,
            ),
            MatchAlgorithm::WuManber => if with.len() == 0 {
                remove_each(text, retained(pats), retained(pats).len() as int)
            } else {
                mask_each(text, retained(pats), with[0], retained(pats).len() as int)
            },
            MatchAlgorithm::Regex => splice_from(
                text,
                regex_all(alternation(usable(pats)), text),
                fill_of(with),
                0,
                0,
            ),
        }
    }
}

/// The text between byte offsets `start` and `end` of `text`.
pub fn slice_text(text: &str, start: usize, end: usize) -> (r: Option<String>)
    ensures
        match r {
            Some(s) => byte_slice(text@, start as int, end as int) == Some(s@),
            None => byte_slice(text@, start as int, end as int) is None,
        },
{
    let (chars, offsets) = char_offsets(text);
    match slice_bytes(&chars, &offsets, start, end) {
        Some(p) => Some(from_chars(&p)),
        None => None,
    }
}

/// The spans of `matches`, in order.
pub fn spans_from(matches: &Vec<Match>) -> (r: Vec<(usize, usize)>)
    ensures
        r@ == spans_of(matches@),
{
    let mut out: Vec<(usize, usize)> = Vec::new();
    let mut i: usize = 0;
    while i < matches.len()
        invariant
            i <= matches.len(),
            out@.len() == i,
            forall|j: int| 0 <= j < i ==> out@[j] == (matches@[j].start, matches@[j].end),
        decreases matches.len() - i,
    {
        out.push((matches[i].start, matches[i].end));
        i += 1;
    }
    assert(out@ =~= spans_of(matches@));
    out
}

/// The block size of the strict block-hash matcher built from `pats` with
/// the derived block size.
pub open spec fn strict_block(pats: Seq<Seq<char>>) -> nat {
    let kept = kept_patterns(pats, SpaceHandling::Strict);
    let wanted = optimal_block_size(pats, SpaceHandling::Strict);
    if kept.len() == 0 {
        2
    } else if wanted <= min_length(kept) {
        wanted
    } else {
        min_length(kept)
    }
}

/// The estimate of the memory an engine running `backend` over `pats`
/// holds: the bytes of the vocabulary and, on top, the estimate of the
/// block-hash matcher or, for the other back ends, twice the bytes of the
/// vocabulary. The figure is capped at the largest `usize`.
pub open spec fn engine_memory(
    backend: MatchAlgorithm,
    pats: Seq<Seq<char>>,
    pointer: usize,
    key: usize,
    word: usize,
    slot: usize,
) -> usize {
    let own = total_bytes(pats);
    match backend {
        MatchAlgorithm::WuManber => if usable(pats).len() == 0 {
            capped(own as int)
        } else {
            capped(
                own + memory_estimate(
                    kept_patterns(pats, SpaceHandling::Strict),
                    strict_block(pats) as int,
                    pointer,
                    key,
                    word,
                    slot,
                ).total_memory,
            )
        },
        _ => capped((3 * own) as int),
    }
}

/// The regular expression source for `patterns`.
fn build_alternation(patterns: &Vec<String>) -> (r: String)
    ensures
        r@ == alternation(views(patterns@)),
{
    let ghost pv = views(patterns@);
    let mut out: Vec<char> = Vec::new();
    let mut i: usize = 0;
    assert(pv.take(0) =~= Seq::empty());
    while i < patterns.len()
        invariant
            i <= patterns.len(),
            pv == views(patterns@),
            out@ == alternation(pv.take(i as int)),
        decreases patterns.len() - i,
    {
        let piece = regex_escape(patterns[i].as_str());
        let piece_chars = to_chars(piece.as_str());
        proof {
            assert(pv.take(i + 1).drop_last() == pv.take(i as int));
            assert(pv.take(i + 1).last() == patterns@[i as int]@);
            assert(pv.take(i + 1)[0] == pv[0]);
        }
        if i > 0 {
            out.push('|');
        }
        append_chars(&mut out, &piece_chars);
        i += 1;
    }
    assert(pv.take(patterns.len() as int) == pv);
    from_chars(&out)
}

/// The terms of `patterns` that have characters.
fn usable_terms(patterns: &Vec<String>) -> (r: Vec<String>)
    ensures
        views(r@) == usable(views(patterns@)),
{
    let ghost pv = views(patterns@);
    let mut out: Vec<String> = Vec::new();
    let mut i: usize = 0;
    assert(views(out@) =~= usable(pv.take(0)));
    while i < patterns.len()
        invariant
            i <= patterns.len(),
            pv == views(patterns@),
            views(out@) == usable(pv.take(i as int)),
        decreases patterns.len() - i,
    {
        proof {
            assert(pv.take(i + 1).drop_last() == pv.take(i as int));
            assert(pv.take(i + 1).last() == patterns@[i as int]@);
        }
        if !patterns[i].as_str().is_empty() {
            let ghost before = views(out@);
            out.push(patterns[i].clone());
            assert(views(out@) =~= before.push(patterns@[i as int]@));
        }
        i += 1;
    }
    assert(pv.take(patterns.len() as int) == pv);
    out
}

/// Dispatcher that owns the vocabulary and at most one back end built from
/// it. A term without characters never matches, on any back end.
pub struct MultiPatternEngine {
    algorithm: MatchAlgorithm,
    ac: Option<Arc<AhoCorasick>>,
    wm: Option<Arc<WuManber>>,
    regex_set: Option<Regex>,
    patterns: Vec<String>,
}

impl MultiPatternEngine {
    #[verifier::type_invariant]
    spec fn inv(&self) -> bool {
        let pv = views(self.patterns@);
        &&& match self.ac {
            Some(ac) => self.algorithm == MatchAlgorithm::AhoCorasick && ac_patterns(*ac)
                == usable(pv) && ac_leftmost_longest(*ac),
            None => true,
        }
        &&& match self.wm {
            Some(wm) => self.algorithm == MatchAlgorithm::WuManber && wm.is_built_from(
                pv,
                optimal_block_size(pv, SpaceHandling::Strict),
                SpaceHandling::Strict,
            ),
            None => true,
        }
        &&& match self.regex_set {
            Some(re) => self.algorithm == MatchAlgorithm::Regex && regex_source(re) == alternation(
                usable(pv),
            ) && regex_plain(re),
            None => true,
        }
        &&& usable(pv).len() > 0 ==> match self.algorithm {
            MatchAlgorithm::AhoCorasick => self.ac is Some,
            MatchAlgorithm::WuManber => self.wm is Some,
            MatchAlgorithm::Regex => self.regex_set is Some,
        }
        &&& usable(pv).len() == 0 ==> self.ac is None && self.wm is None && self.regex_set is None
    }

    /// The vocabulary the engine was last built from.
    pub closed spec fn vocabulary(&self) -> Seq<Seq<char>> {
        views(self.patterns@)
    }

    /// The back end in force.
    pub closed spec fn backend(&self) -> MatchAlgorithm {
        self.algorithm
    }

    /// Builds the back end for `algorithm` over `patterns`, falling back to
    /// the block-hash matcher where the requested one cannot be constructed.
    fn build_engines(algorithm: MatchAlgorithm, patterns: Vec<String>) -> (e: Self)
        ensures
            e.vocabulary() == views(patterns@),
            e.backend() == resolved(algorithm, views(patterns@)),
    {
        let terms = usable_terms(&patterns);
        if terms.len() == 0 {
            return MultiPatternEngine { algorithm, ac: None, wm: None, regex_set: None, patterns };
        }
        match algorithm {
            MatchAlgorithm::AhoCorasick => match ac_build(&terms) {
                Ok(ac) => MultiPatternEngine {
                    algorithm: MatchAlgorithm::AhoCorasick,
                    ac: Some(Arc::new(ac)),
                    wm: None,
                    regex_set: None,
                    patterns,
                },
                Err(_) => Self::fallback(patterns),
            },
            MatchAlgorithm::WuManber => Self::fallback(patterns),
            MatchAlgorithm::Regex => {
                let source = build_alternation(&terms);
                match regex_new(source.as_str()) {
                    Ok(re) => MultiPatternEngine {
                        algorithm: MatchAlgorithm::Regex,
                        ac: None,
                        wm: None,
                        regex_set: Some(re),
                        patterns,
                    },
                    Err(_) => Self::fallback(patterns),
                }
            },
        }
    }

    /// The engine that runs the block-hash matcher over `patterns`.
    fn fallback(patterns: Vec<String>) -> (e: Self)
        requires
            usable(views(patterns@)).len() > 0,
        ensures
            e.vocabulary() == views(patterns@),
            e.backend() == MatchAlgorithm::WuManber,
    {
        let copy = clone_strings(patterns.as_slice());
        let wm = WuManber::new_chinese(copy);
        MultiPatternEngine {
            algorithm: MatchAlgorithm::WuManber,
            ac: None,
            wm: Some(Arc::new(wm)),
            regex_set: None,
            patterns,
        }
    }

    /// Creates an engine over `patterns`. With an explicit `algorithm` that
    /// back end is built; without one the back end is chosen by the size of
    /// the vocabulary.
    pub fn new(algorithm: Option<MatchAlgorithm>, patterns: &[String]) -> (e: Self)
        ensures
            e.vocabulary() == views(patterns@),
            e.backend() == resolved(
                match algorithm {
                    Some(a) => a,
                    None => recommended(patterns@.len()),
                },
                views(patterns@),
            ),
    {
        let chosen = match algorithm {
            Some(a) => a,
            None => Self::recommend_algorithm(patterns.len()),
        };
        Self::build_engines(chosen, clone_strings(patterns))
    }

    /// Replaces the vocabulary, chooses the back end anew by its size, and
    /// builds it.
    pub fn rebuild(&mut self, patterns: &[String])
        ensures
            final(self).vocabulary() == views(patterns@),
            final(self).backend() == resolved(recommended(patterns@.len()), views(patterns@)),
    {
        let chosen = Self::recommend_algorithm(patterns.len());
        *self = Self::build_engines(chosen, clone_strings(patterns));
    }

    /// The back end favoured for a vocabulary of `word_count` terms.
    pub fn recommend_algorithm(word_count: usize) -> (a: MatchAlgorithm)
        ensures
            a == recommended(word_count as nat),
    {
        if word_count <= 100 {
            MatchAlgorithm::WuManber
        } else if word_count <= 10_000 {
            MatchAlgorithm::AhoCorasick
        } else {
            MatchAlgorithm::Regex
        }
    }

    /// Replaces the vocabulary and builds the given back end, whatever the
    /// size of the vocabulary.
    pub fn rebuild_with_algorithm(&mut self, patterns: &[String], algorithm: MatchAlgorithm)
        ensures
            final(self).vocabulary() == views(patterns@),
            final(self).backend() == resolved(algorithm, views(patterns@)),
    {
        *self = Self::build_engines(algorithm, clone_strings(patterns));
    }

    /// The back end in force.
    pub fn current_algorithm(&self) -> (a: MatchAlgorithm)
        ensures
            a == self.backend(),
    {
        self.algorithm
    }

    /// The vocabulary the engine was last built from.
    pub fn get_patterns(&self) -> (r: &[String])
        ensures
            views(r@) == self.vocabulary(),
    {
        self.patterns.as_slice()
    }
}

impl MultiPatternEngine {
    /// Finds the first match in `text`.
    pub fn find_first(&self, text: &str) -> (r: Option<String>)
        ensures
            match first_match_of(self.backend(), self.vocabulary(), text@) {
                Some(s) => r is Some && r.unwrap()@ == s,
                None => r is None,
            },
    {
        proof {
            use_type_invariant(self);
        }
        match self.algorithm {
            MatchAlgorithm::AhoCorasick => match &self.ac {
                Some(ac) => match ac_find(ac, text) {
                    Some(span) => slice_text(text, span.0, span.1),
                    None => None,
                },
                None => None,
            },
            MatchAlgorithm::WuManber => match &self.wm {
                Some(wm) => {
                    proof {
                        assert(wm.processed() =~= kept_patterns(
                            self.vocabulary(),
                            SpaceHandling::Strict,
                        ));
                    }
                    wm.search_string(text)
                },
                None => None,
            },
            MatchAlgorithm::Regex => match &self.regex_set {
                Some(re) => match regex_find(re, text) {
                    Some(span) => slice_text(text, span.0, span.1),
                    None => None,
                },
                None => None,
            },
        }
    }

    /// Replaces every match in `text`, character for character: each match
    /// gives way to as many copies of the first character of `replacement`
    /// as the match has characters, so the outcome is as long as the text.
    /// An empty `replacement` removes the matches.
    pub fn replace_all(&self, text: &str, replacement: &str) -> (r: String)
        ensures
            r@ == replaced_by(self.backend(), self.vocabulary(), text@, replacement@),
            replacement@.len() > 0 ==> r@.len() == text@.len(),
            replacement@.len() > 0 ==> forall|p: int|
                0 <= p < text@.len() ==> #[trigger] r@[p] == text@[p] || r@[p] == replacement@[0],
    {
        proof {
            use_type_invariant(self);
        }
        let with = to_chars(replacement);
        let fill = if with.len() == 0 {
            None
        } else {
            Some(with[0])
        };
        match self.algorithm {
            MatchAlgorithm::AhoCorasick => match &self.ac {
                Some(ac) => {
                    let spans = ac_find_all(ac, text);
                    splice_spans(text, &spans, fill)
                },
                None => text.to_owned(),
            },
            MatchAlgorithm::WuManber => match &self.wm {
                Some(wm) => {
                    proof {
                        assert(wm.given() =~= retained(self.vocabulary()));
                    }
                    if with.len() == 0 {
                        wm.remove_all(text)
                    } else {
                        wm.replace_all(text, with[0])
                    }
                },
                None => text.to_owned(),
            },
            MatchAlgorithm::Regex => match &self.regex_set {
                Some(re) => {
                    let spans = regex_find_all(re, text);
                    splice_spans(text, &spans, fill)
                },
                None => text.to_owned(),
            },
        }
    }

    /// Finds all matches in `text`.
    pub fn find_all(&self, text: &str) -> (r: Vec<String>)
        ensures
            views(r@) == all_matches_of(self.backend(), self.vocabulary(), text@),
    {
        proof {
            use_type_invariant(self);
        }
        let none: Vec<String> = Vec::new();
        assert(views(none@) =~= Seq::empty());
        match self.algorithm {
            MatchAlgorithm::AhoCorasick => match &self.ac {
                Some(ac) => {
                    let spans = ac_find_all(ac, text);
                    collect_texts(text, &spans)
                },
                None => none,
            },
            MatchAlgorithm::WuManber => match &self.wm {
                Some(wm) => {
                    proof {
                        assert(wm.given() =~= retained(self.vocabulary()));
                    }
                    wm.search_all_strings(text)
                },
                None => none,
            },
            MatchAlgorithm::Regex => match &self.regex_set {
                Some(re) => {
                    let spans = regex_find_all(re, text);
                    collect_texts(text, &spans)
                },
                None => none,
            },
        }
    }

    /// Finds all matches in `text`, each with the text it covers and its
    /// byte interval.
    pub fn find_matches_with_positions(&self, text: &str) -> (r: Vec<MatchInfo>)
        ensures
            info_views(r@) == infos_of(
                text@,
                spans_in(self.backend(), self.vocabulary(), text@),
                spans_in(self.backend(), self.vocabulary(), text@).len() as int,
            ),
            forall|j: int| 0 <= j < r@.len() ==> is_match_in(text@, #[trigger] r@[j]),
    {
        proof {
            use_type_invariant(self);
        }
        let none: Vec<MatchInfo> = Vec::new();
        assert(info_views(none@) =~= Seq::empty());
        match self.algorithm {
            MatchAlgorithm::AhoCorasick => match &self.ac {
                Some(ac) => {
                    let spans = ac_find_all(ac, text);
                    collect_infos(text, &spans)
                },
                None => none,
            },
            MatchAlgorithm::WuManber => match &self.wm {
                Some(wm) => {
                    proof {
                        assert(wm.given() =~= retained(self.vocabulary()));
                    }
                    let matches = wm.find_matches(text);
                    let spans = spans_from(&matches);
                    collect_infos(text, &spans)
                },
                None => none,
            },
            MatchAlgorithm::Regex => match &self.regex_set {
                Some(re) => {
                    let spans = regex_find_all(re, text);
                    collect_infos(text, &spans)
                },
                None => none,
            },
        }
    }

    /// Whether any term of the vocabulary is found in `text`.
    pub fn contains_any(&self, text: &str) -> (b: bool)
        ensures
            b == first_match_of(self.backend(), self.vocabulary(), text@) is Some,
    {
        self.find_first(text).is_some()
    }
}

impl MultiPatternEngine {
    /// Reports the back end in force, the size of the vocabulary and an
    /// estimate of the memory held, with the sizes of this machine. The
    /// size of a suffix list is not known to the contract.
    pub fn stats(&self) -> (s: EngineStats)
        ensures
            s.algorithm == self.backend(),
            s.pattern_count == self.vocabulary().len(),
            exists|slot: usize|
                s.memory_usage == #[trigger] engine_memory(
                    self.backend(),
                    self.vocabulary(),
                    vstd::layout::size_of::<Arc<String>>() as usize,
                    vstd::layout::size_of::<u64>() as usize,
                    vstd::layout::size_of::<usize>() as usize,
                    slot,
                ),
    {
        let pointer = core::mem::size_of::<Arc<String>>();
        let key = core::mem::size_of::<u64>();
        let word = core::mem::size_of::<usize>();
        let slot = suffix_slot_size();
        let memory_usage = self.estimate_memory_usage(pointer, key, word, slot);
        proof {
            assert(pointer == vstd::layout::size_of::<Arc<String>>() as usize);
            assert(key == vstd::layout::size_of::<u64>() as usize);
            assert(word == vstd::layout::size_of::<usize>() as usize);
            assert(memory_usage == engine_memory(
                self.backend(),
                self.vocabulary(),
                vstd::layout::size_of::<Arc<String>>() as usize,
                vstd::layout::size_of::<u64>() as usize,
                vstd::layout::size_of::<usize>() as usize,
                slot,
            ));
        }
        EngineStats { algorithm: self.algorithm, pattern_count: self.patterns.len(), memory_usage }
    }

    /// Estimates the memory the engine holds, for the given sizes in bytes
    /// of a shared string handle, a table key, a machine word and a suffix
    /// list.
    pub fn estimate_memory_usage(&self, pointer: usize, key: usize, word: usize, slot: usize) -> (r:
        usize)
        ensures
            r == engine_memory(self.backend(), self.vocabulary(), pointer, key, word, slot),
    {
        proof {
            use_type_invariant(self);
        }
        let ghost pv = views(self.patterns@);
        let mut own: usize = 0;
        let mut i: usize = 0;
        assert(total_bytes(pv.take(0)) == 0);
        while i < self.patterns.len()
            invariant
                i <= self.patterns@.len(),
                pv == views(self.patterns@),
                own == capped(total_bytes(pv.take(i as int)) as int),
            decreases self.patterns.len() - i,
        {
            let size = byte_length(self.patterns[i].as_str());
            proof {
                assert(pv.take(i + 1).drop_last() == pv.take(i as int));
                assert(pv.take(i + 1).last() == self.patterns@[i as int]@);
                lemma_capped_sum(total_bytes(pv.take(i as int)) as int, size as int);
            }
            own = sat_add(own, size);
            i += 1;
        }
        assert(pv.take(self.patterns@.len() as int) == pv);
        match self.algorithm {
            MatchAlgorithm::WuManber => match &self.wm {
                Some(wm) => {
                    let inner = wm.memory_stats_with(pointer, key, word, slot).total_memory;
                    proof {
                        assert(wm.block() == strict_block(pv));
                        assert(wm.processed() =~= kept_patterns(pv, SpaceHandling::Strict));
                        let exact = memory_estimate(
                            kept_patterns(pv, SpaceHandling::Strict),
                            strict_block(pv) as int,
                            pointer,
                            key,
                            word,
                            slot,
                        ).total_memory;
                        assert(inner == exact);
                        assert(capped(inner as int) == inner);
                        lemma_capped_sum(total_bytes(pv) as int, inner as int);
                    }
                    sat_add(own, inner)
                },
                None => own,
            },
            _ => {
                let twice = sat_mul(own, 2);
                proof {
                    lemma_capped_product(total_bytes(pv) as int, 2);
                    lemma_capped_sum(total_bytes(pv) as int, (total_bytes(pv) * 2) as int);
                }
                sat_add(own, twice)
            },
        }
    }
}

impl Default for MultiPatternEngine {
    /// The engine without vocabulary that starts with the automaton.
    fn default() -> (e: Self)
        ensures
            e.vocabulary().len() == 0,
            e.backend() == MatchAlgorithm::AhoCorasick,
    {
        MultiPatternEngine {
            algorithm: MatchAlgorithm::AhoCorasick,
            ac: None,
            wm: None,
            regex_set: None,
            patterns: Vec::new(),
        }
    }
}

} // verus!
