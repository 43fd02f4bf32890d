//! The block-hash matcher: a Wu-Manber style multi-pattern search over
//! Unicode scalar values.

use vstd::prelude::*;
use std::sync::Arc;
use crate::engine::block_tables::{
    build_hash_table, build_shift_table, hash_window, hits, shift_keys, shift_known, shift_table_ok,
    suffix_keys, suffix_table_ok,
};
use crate::engine::canon::{
    kept_patterns, lemma_kept_nonempty, lemma_min_length, min_length, optimal_block_size,
    preprocess, preprocess_chars, process_patterns, shortest_length,
};
use crate::engine::scan::{
    ends_at, first_candidate, lemma_find_skip, lemma_first_ending, lemma_probe, lemma_skip_by_shift,
    lemma_skip_without_entry, lemma_strict_search, long_enough, none_ends_between, probe,
    strict_find, strict_search,
};
use crate::engine::tables::{suffix_slot_size, ShiftTable, SuffixTable};
use crate::estimate::{capped, lemma_capped_product, lemma_capped_sum, sat_add, sat_mul};
use crate::order::{lemma_is_sorted_set, picked, sorted_indices, sorted_set};
use crate::text::{
    byte_len, byte_length, byte_offset, char_offsets, contains, contains_seq, from_chars,
    lemma_offsets_ordered, lemma_replace_all_len, lemma_replace_all_places, matches_at, occurs_at,
    repeat, repeat_char, replace_all, replace_chars, rows, to_chars, valid_span, views,
};

verus! {

/// How whitespace in patterns and text is canonicalised before comparison.
#[derive(Debug, Clone, Copy, PartialEq, Eq, Structural)]
pub enum SpaceHandling {
    /// Whitespace must match exactly.
    Strict,
    /// All whitespace is removed before matching.
    IgnoreSpaces,
    /// Every run of whitespace counts as a single space.
    NormalizeSpaces,
}

/// A half-open byte interval `[start, end)` of the searched text.
#[derive(Debug, Clone, Copy, PartialEq, Eq, Structural)]
pub struct Match {
    pub start: usize,
    pub end: usize,
}

/// Sizes of a built matcher.
#[derive(Debug, Clone)]
pub struct WuManberStats {
    pub pattern_count: usize,
    pub min_length: usize,
    pub block_size: usize,
    pub shift_table_size: usize,
    pub hash_table_size: usize,
}

/// Estimated memory held by a built matcher, in bytes.
#[derive(Debug, Clone)]
pub struct WuManberMemoryStats {
    pub total_patterns: usize,
    pub patterns_memory: usize,
    pub shift_table_memory: usize,
    pub hash_table_memory: usize,
    pub total_memory: usize,
}

/// The canonical form of the `i`-th of `given` has characters and occurs in
/// the canonical form of `text`. A term whose canonical form is empty never
/// matches.
pub open spec fn is_hit(
    given: Seq<Seq<char>>,
    policy: SpaceHandling,
    text: Seq<char>,
    i: int,
) -> bool {
    &&& preprocess(given[i], policy).len() > 0
    &&& contains_seq(preprocess(text, policy), preprocess(given[i], policy))
}

/// Index, at or after `from`, of the first of `given` that is a hit in
/// `text`.
pub open spec fn first_contained(
    given: Seq<Seq<char>>,
    policy: SpaceHandling,
    text: Seq<char>,
    from: int,
) -> Option<int>
    decreases given.len() - from,
{
    if from < 0 || from >= given.len() {
        None
    } else if is_hit(given, policy, text, from) {
        Some(from)
    } else {
        first_contained(given, policy, text, from + 1)
    }
}

/// What direct containment finds is the first term that is a hit; it finds
/// nothing only where no term is a hit.
pub proof fn lemma_first_contained(
    given: Seq<Seq<char>>,
    policy: SpaceHandling,
    text: Seq<char>,
    from: int,
)
    requires
        0 <= from,
    ensures
        match first_contained(given, policy, text, from) {
            Some(i) => from <= i < given.len() && is_hit(given, policy, text, i)
                && forall|j: int| from <= j < i ==> !is_hit(given, policy, text, j),
            None => forall|j: int| from <= j < given.len() ==> !is_hit(given, policy, text, j),
        },
    decreases given.len() - from,
{
    if from < given.len() && !is_hit(given, policy, text, from) {
        lemma_first_contained(given, policy, text, from + 1);
    }
}

/// Texts with the same canonical form are searched alike.
pub proof fn lemma_same_canonical_text(
    given: Seq<Seq<char>>,
    policy: SpaceHandling,
    first: Seq<char>,
    second: Seq<char>,
    from: int,
)
    requires
        preprocess(first, policy) == preprocess(second, policy),
    ensures
        first_contained(given, policy, first, from) == first_contained(
            given,
            policy,
            second,
            from,
        ),
    decreases given.len() - from,
{
    if 0 <= from < given.len() {
        lemma_same_canonical_text(given, policy, first, second, from + 1);
    }
}

/// Those of the first `n` of `given`, in order, that are hits in `text`.
pub open spec fn hit_strings(
    given: Seq<Seq<char>>,
    policy: SpaceHandling,
    text: Seq<char>,
    n: int,
) -> Seq<Seq<char>>
    decreases n,
{
    if n <= 0 {
        Seq::empty()
    } else if is_hit(given, policy, text, n - 1) {
        hit_strings(given, policy, text, n - 1).push(given[n - 1])
    } else {
        hit_strings(given, policy, text, n - 1)
    }
}

/// The canonical forms of those of the first `n` of `given`, in order, that
/// are hits in `text`.
pub open spec fn hit_forms(
    given: Seq<Seq<char>>,
    policy: SpaceHandling,
    text: Seq<char>,
    n: int,
) -> Seq<Seq<char>>
    decreases n,
{
    if n <= 0 {
        Seq::empty()
    } else if is_hit(given, policy, text, n - 1) {
        hit_forms(given, policy, text, n - 1).push(preprocess(given[n - 1], policy))
    } else {
        hit_forms(given, policy, text, n - 1)
    }
}

/// A term is listed among the hits exactly when it is a hit.
pub proof fn lemma_hit_strings(
    given: Seq<Seq<char>>,
    policy: SpaceHandling,
    text: Seq<char>,
    n: int,
)
    requires
        0 <= n <= given.len(),
    ensures
        hit_strings(given, policy, text, n).len() > 0 <==> exists|i: int|
            0 <= i < n && is_hit(given, policy, text, i),
    decreases n,
{
    if n > 0 {
        lemma_hit_strings(given, policy, text, n - 1);
        if is_hit(given, policy, text, n - 1) {
        } else if hit_strings(given, policy, text, n).len() > 0 {
            let i = choose|i: int| 0 <= i < n - 1 && is_hit(given, policy, text, i);
            assert(0 <= i < n && is_hit(given, policy, text, i));
        } else {
            assert forall|i: int| 0 <= i < n implies !is_hit(given, policy, text, i) by {
                if i < n - 1 && is_hit(given, policy, text, i) {
                    assert(0 <= i < n - 1 && is_hit(given, policy, text, i));
                }
            }
        }
    }
}

/// `text` after the first `n` of `pats`, in order, have each been replaced
/// by as many copies of `c` as the pattern has characters.
pub open spec fn mask_each(text: Seq<char>, pats: Seq<Seq<char>>, c: char, n: int) -> Seq<char>
    decreases n,
{
    if n <= 0 {
        text
    } else {
        replace_all(mask_each(text, pats, c, n - 1), pats[n - 1], repeat_char(c, pats[n - 1].len()))
    }
}

/// Masking keeps the number of characters: each occurrence of a term gives
/// way to as many mask characters as the term has characters.
pub proof fn lemma_mask_keeps_length(text: Seq<char>, pats: Seq<Seq<char>>, c: char, n: int)
    requires
        n <= pats.len(),
    ensures
        mask_each(text, pats, c, n).len() == text.len(),
    decreases n,
{
    if n > 0 {
        lemma_mask_keeps_length(text, pats, c, n - 1);
        lemma_replace_all_len(
            mask_each(text, pats, c, n - 1),
            pats[n - 1],
            repeat_char(c, pats[n - 1].len()),
        );
    }
}

/// Masking keeps every character in its place: each place of the outcome
/// holds what the text holds there, or the mask character.
pub proof fn lemma_mask_keeps_places(text: Seq<char>, pats: Seq<Seq<char>>, c: char, n: int)
    requires
        n <= pats.len(),
    ensures
        mask_each(text, pats, c, n).len() == text.len(),
        forall|p: int|
            0 <= p < text.len() ==> #[trigger] mask_each(text, pats, c, n)[p] == text[p]
                || mask_each(text, pats, c, n)[p] == c,
    decreases n,
{
    lemma_mask_keeps_length(text, pats, c, n);
    if n > 0 {
        let before = mask_each(text, pats, c, n - 1);
        lemma_mask_keeps_places(text, pats, c, n - 1);
        lemma_replace_all_places(before, pats[n - 1], c);
        let after = mask_each(text, pats, c, n);
        assert forall|p: int| 0 <= p < text.len() implies #[trigger] after[p] == text[p]
            || after[p] == c by {
            assert(after[p] == before[p] || after[p] == c);
            assert(before[p] == text[p] || before[p] == c);
        }
    }
}

/// `text` after the first `n` of `pats`, in order, have each been removed.
pub open spec fn remove_each(text: Seq<char>, pats: Seq<Seq<char>>, n: int) -> Seq<char>
    decreases n,
{
    if n <= 0 {
        text
    } else {
        replace_all(remove_each(text, pats, n - 1), pats[n - 1], Seq::empty())
    }
}

/// The byte interval of the occurrence of `pat` at character index `i`.
pub open spec fn match_of(text: Seq<char>, pat: Seq<char>, i: int) -> Match {
    Match { start: byte_offset(text, i) as usize, end: byte_offset(text, i + pat.len()) as usize }
}

/// The occurrences at character index `i` of the first `n` of `pats`, in
/// pattern order. Empty patterns have no occurrences.
pub open spec fn matches_at_index(text: Seq<char>, pats: Seq<Seq<char>>, i: int, n: int) -> Seq<
    Match,
>
    decreases n,
{
    if n <= 0 {
        Seq::empty()
    } else if pats[n - 1].len() > 0 && occurs_at(text, pats[n - 1], i) {
        matches_at_index(text, pats, i, n - 1).push(match_of(text, pats[n - 1], i))
    } else {
        matches_at_index(text, pats, i, n - 1)
    }
}

/// Every occurrence of every pattern that starts before character index
/// `end`, ordered by start and, among equal starts, by pattern.
pub open spec fn matches_before(text: Seq<char>, pats: Seq<Seq<char>>, end: int) -> Seq<Match>
    decreases end,
{
    if end <= 0 {
        Seq::empty()
    } else {
        matches_before(text, pats, end - 1) + matches_at_index(
            text,
            pats,
            end - 1,
            pats.len() as int,
        )
    }
}

/// Number of bytes the patterns occupy in UTF-8, all together.
pub open spec fn total_bytes(pats: Seq<Seq<char>>) -> nat
    decreases pats.len(),
{
    if pats.len() == 0 {
        0
    } else {
        total_bytes(pats.drop_last()) + byte_len(pats.last())
    }
}

/// The estimate of the memory a matcher over the canonical patterns `pats`
/// with block size `b` holds, for the given sizes in bytes of a shared
/// string handle, a table key, a machine word and a suffix list. Each
/// pattern counts with its handle and its bytes; each shift entry with a key
/// and a word; each suffix entry with a key and a list, and each listed
/// pattern with a word; each distinct pattern with one more handle. Every
/// figure is capped at the largest `usize`.
pub open spec fn memory_estimate(
    pats: Seq<Seq<char>>,
    b: int,
    pointer: usize,
    key: usize,
    word: usize,
    slot: usize,
) -> WuManberMemoryStats {
    let n = pats.len();
    let patterns = n * pointer + total_bytes(pats);
    let shift = shift_keys(pats, b).len() * (key + word);
    let suffix = suffix_keys(pats, b).len() * (key + slot) + n * word;
    let set = sorted_set(pats).len() * pointer;
    WuManberMemoryStats {
        total_patterns: n as usize,
        patterns_memory: capped(patterns),
        shift_table_memory: capped(shift),
        hash_table_memory: capped(suffix),
        total_memory: capped(patterns + shift + suffix + set),
    }
}

/// The character sequences of a list of shared strings.
pub open spec fn arc_views(v: Seq<Arc<String>>) -> Seq<Seq<char>> {
    Seq::new(v.len(), |i: int| v[i]@)
}

/// Multi-pattern matcher over a fixed vocabulary.
///
/// A matcher is built once from a vocabulary, a block size and a whitespace
/// policy, and never changes afterwards. Its two tables are determined by the
/// canonical patterns and the block size.
pub struct WuManber {
    patterns: Vec<Arc<String>>,
    pattern_chars: Vec<Vec<char>>,
    given_patterns: Vec<String>,
    min_len: usize,
    block_size: usize,
    shift_table: ShiftTable,
    hash_table: SuffixTable,
    space_handling: SpaceHandling,
}

impl WuManber {
    #[verifier::type_invariant]
    spec fn inv(&self) -> bool {
        &&& arc_views(self.patterns@) == rows(self.pattern_chars@)
        &&& rows(self.pattern_chars@) == kept_patterns(
            views(self.given_patterns@),
            self.space_handling,
        )
        &&& self.min_len == min_length(rows(self.pattern_chars@))
        &&& self.patterns@.len() > 0 ==> self.block_size <= self.min_len
        &&& self.patterns@.len() == 0 ==> self.block_size == 2 && self.given_patterns@.len() == 0
            && self.space_handling == SpaceHandling::Strict
        &&& shift_table_ok(self.shift_table@, rows(self.pattern_chars@), self.block_size as int)
        &&& suffix_table_ok(self.hash_table@, rows(self.pattern_chars@), self.block_size as int)
    }

    /// The vocabulary the matcher was built from, as given.
    pub closed spec fn given(&self) -> Seq<Seq<char>> {
        views(self.given_patterns@)
    }

    /// The canonical, non-empty patterns the tables index.
    pub closed spec fn processed(&self) -> Seq<Seq<char>> {
        arc_views(self.patterns@)
    }

    /// The whitespace policy in force.
    pub closed spec fn policy(&self) -> SpaceHandling {
        self.space_handling
    }

    /// The block size in force.
    pub closed spec fn block(&self) -> nat {
        self.block_size as nat
    }

    /// Length of the shortest canonical pattern.
    pub closed spec fn shortest(&self) -> nat {
        self.min_len as nat
    }

    /// The matcher is the one built from `given` with the requested
    /// block size under `policy`. A vocabulary whose canonical patterns are
    /// all empty yields the empty matcher, which is strict and has block
    /// size two. Otherwise the block size is the requested one clamped to
    /// the shortest canonical pattern.
    pub open spec fn is_built_from(
        &self,
        given: Seq<Seq<char>>,
        requested: nat,
        policy: SpaceHandling,
    ) -> bool {
        let kept = kept_patterns(given, policy);
        if kept.len() == 0 {
            &&& self.given().len() == 0
            &&& self.processed().len() == 0
            &&& self.policy() == SpaceHandling::Strict
            &&& self.shortest() == 0
            &&& self.block() == 2
        } else {
            &&& self.given() == given
            &&& self.processed() == kept
            &&& self.policy() == policy
            &&& self.shortest() == min_length(kept)
            &&& self.block() == (if requested <= min_length(kept) {
                requested
            } else {
                min_length(kept)
            })
            &&& self.block() <= self.shortest()
        }
    }

    /// Strict matcher with the block size derived from the vocabulary.
    pub fn new_chinese(patterns: Vec<String>) -> (wm: Self)
        ensures
            wm.is_built_from(
                views(patterns@),
                optimal_block_size(views(patterns@), SpaceHandling::Strict),
                SpaceHandling::Strict,
            ),
    {
        Self::new_with_space_handling(patterns, SpaceHandling::Strict)
    }

    /// Strict matcher with the given block size.
    pub fn new(patterns: Vec<String>, block_size: usize) -> (wm: Self)
        ensures
            wm.is_built_from(views(patterns@), block_size as nat, SpaceHandling::Strict),
    {
        Self::new_with_block_size_and_space_handling(patterns, block_size, SpaceHandling::Strict)
    }

    /// Matcher under `space_handling` with the block size derived from the
    /// vocabulary.
    pub fn new_with_space_handling(patterns: Vec<String>, space_handling: SpaceHandling) -> (wm:
        Self)
        ensures
            wm.is_built_from(
                views(patterns@),
                optimal_block_size(views(patterns@), space_handling),
                space_handling,
            ),
    {
        let block_size = Self::calculate_optimal_block_size(&patterns, space_handling);
        Self::new_with_block_size_and_space_handling(patterns, block_size, space_handling)
    }

    /// Matcher under `space_handling` with the given block size.
    pub fn new_with_block_size_and_space_handling(
        patterns: Vec<String>,
        block_size: usize,
        space_handling: SpaceHandling,
    ) -> (wm: Self)
        ensures
            wm.is_built_from(views(patterns@), block_size as nat, space_handling),
    {
        Self::build_instance(patterns, block_size, false, space_handling)
    }

    /// Strict matcher with the given block size, its tables built on the
    /// thread pool. The matcher is the one [`WuManber::new`] builds.
    pub fn new_parallel(patterns: Vec<String>, block_size: usize) -> (wm: Self)
        ensures
            wm.is_built_from(views(patterns@), block_size as nat, SpaceHandling::Strict),
    {
        Self::new_parallel_with_space_handling(patterns, block_size, SpaceHandling::Strict)
    }

    /// Matcher under `space_handling` with the given block size, its tables
    /// built on the thread pool. The matcher is the one
    /// [`WuManber::new_with_block_size_and_space_handling`] builds.
    pub fn new_parallel_with_space_handling(
        patterns: Vec<String>,
        block_size: usize,
        space_handling: SpaceHandling,
    ) -> (wm: Self)
        ensures
            wm.is_built_from(views(patterns@), block_size as nat, space_handling),
    {
        Self::build_instance(patterns, block_size, true, space_handling)
    }

    /// The block size chosen when none is requested.
    fn calculate_optimal_block_size(patterns: &Vec<String>, space_handling: SpaceHandling) -> (b:
        usize)
        ensures
            b == optimal_block_size(views(patterns@), space_handling),
            1 <= b <= 4,
    {
        if patterns.len() == 0 {
            assert(kept_patterns(views(patterns@), space_handling).len() == 0);
            return 2;
        }
        let processed = process_patterns(patterns, space_handling);
        if processed.len() == 0 {
            return 2;
        }
        let min_len = shortest_length(&processed);
        if min_len == 1 {
            1
        } else if 2 <= min_len && min_len <= 3 {
            2
        } else if 4 <= min_len && min_len <= 10 {
            3
        } else if min_len == 0 {
            2
        } else {
            4
        }
    }

    /// The matcher without patterns.
    fn empty() -> (wm: Self)
        ensures
            wm.given().len() == 0,
            wm.processed().len() == 0,
            wm.policy() == SpaceHandling::Strict,
            wm.shortest() == 0,
            wm.block() == 2,
    {
        let patterns: Vec<Arc<String>> = Vec::new();
        let pattern_chars: Vec<Vec<char>> = Vec::new();
        let given_patterns: Vec<String> = Vec::new();
        let shift_table = ShiftTable::new();
        let hash_table = SuffixTable::new();
        proof {
            assert(arc_views(patterns@) =~= rows(pattern_chars@));
            assert(views(given_patterns@) =~= Seq::empty());
            assert(rows(pattern_chars@) =~= kept_patterns(
                views(given_patterns@),
                SpaceHandling::Strict,
            ));
            assert forall|h: u64| !shift_known(rows(pattern_chars@), 2, h) by {
                assert forall|k: int, i: int| !#[trigger] hits(rows(pattern_chars@), 2, h, k, i) by {}
            }
        }
        WuManber {
            patterns,
            pattern_chars,
            given_patterns,
            min_len: 0,
            block_size: 2,
            shift_table,
            hash_table,
            space_handling: SpaceHandling::Strict,
        }
    }

    /// Builds a matcher: canonicalises the vocabulary, drops what becomes
    /// empty, clamps the block size to the shortest pattern and fills both
    /// tables.
    fn build_instance(
        patterns: Vec<String>,
        block_size: usize,
        parallel: bool,
        space_handling: SpaceHandling,
    ) -> (wm: Self)
        ensures
            wm.is_built_from(views(patterns@), block_size as nat, space_handling),
    {
        if patterns.len() == 0 {
            assert(kept_patterns(views(patterns@), space_handling).len() == 0);
            return Self::empty();
        }
        let pattern_chars = process_patterns(&patterns, space_handling);
        if pattern_chars.len() == 0 {
            return Self::empty();
        }
        let min_len = shortest_length(&pattern_chars);
        let safe_block_size = if block_size <= min_len {
            block_size
        } else {
            min_len
        };
        let mut shared: Vec<Arc<String>> = Vec::new();
        let mut i: usize = 0;
        while i < pattern_chars.len()
            invariant
                i <= pattern_chars.len(),
                shared@.len() == i,
                arc_views(shared@) == rows(pattern_chars@).take(i as int),
            decreases pattern_chars.len() - i,
        {
            let ghost before = shared@;
            let s = from_chars(&pattern_chars[i]);
            let a = Arc::new(s);
            assert(a@ == pattern_chars@[i as int]@);
            shared.push(a);
            i += 1;
            proof {
                assert forall|j: int| 0 <= j < i implies arc_views(shared@)[j] == rows(
                    pattern_chars@,
                ).take(i as int)[j] by {
                    if j < i - 1 {
                        assert(shared@[j] == before[j]);
                        assert(arc_views(before)[j] == rows(pattern_chars@).take(i - 1)[j]);
                    }
                }
                assert(arc_views(shared@) =~= rows(pattern_chars@).take(i as int));
            }
        }
        assert(rows(pattern_chars@).take(pattern_chars.len() as int) == rows(pattern_chars@));
        let shift_table = build_shift_table(&pattern_chars, safe_block_size, parallel);
        let hash_table = build_hash_table(&pattern_chars, safe_block_size, parallel);
        WuManber {
            patterns: shared,
            pattern_chars,
            given_patterns: patterns,
            min_len,
            block_size: safe_block_size,
            shift_table,
            hash_table,
            space_handling,
        }
    }
}

impl WuManber {
    /// What [`WuManber::search`] reports for `text`, as a canonical form.
    /// Under the strict policy it is the canonical pattern that ends first
    /// in the text; where several end at that place, the first of them in
    /// the vocabulary. Under the other policies it is the canonical form of
    /// the first term, in vocabulary order, that is a hit in the text.
    pub open spec fn search_result(&self, text: Seq<char>) -> Option<Seq<char>> {
        if self.policy() != SpaceHandling::Strict {
            match first_contained(self.given(), self.policy(), text, 0) {
                Some(i) => Some(preprocess(self.given()[i], self.policy())),
                None => None,
            }
        } else {
            match strict_search(self.processed(), text) {
                Some(k) => Some(self.processed()[k]),
                None => None,
            }
        }
    }

    /// What [`WuManber::search_string`] reports for `text`: under the
    /// strict policy what the search reports; under the other policies the
    /// first term, as given, that is a hit in the text.
    pub open spec fn search_string_result(&self, text: Seq<char>) -> Option<Seq<char>> {
        if self.policy() != SpaceHandling::Strict {
            match first_contained(self.given(), self.policy(), text, 0) {
                Some(i) => Some(self.given()[i]),
                None => None,
            }
        } else {
            self.search_result(text)
        }
    }

    /// Space-handling equivalence: under a policy other than the strict one,
    /// two texts that have the same canonical form, such as texts that
    /// differ only in whitespace the policy disregards, get the same answer.
    pub proof fn lemma_space_equivalence(&self, first: Seq<char>, second: Seq<char>)
        requires
            self.policy() != SpaceHandling::Strict,
            preprocess(first, self.policy()) == preprocess(second, self.policy()),
        ensures
            self.search_string_result(first) == self.search_string_result(second),
            self.search_result(first) == self.search_result(second),
    {
        lemma_same_canonical_text(self.given(), self.policy(), first, second, 0);
    }

    /// The first of `cands` whose pattern occurs in `chars` ending at `pos`.
    fn verify_matches(&self, chars: &Vec<char>, pos: usize, cands: &Vec<usize>) -> (r: Option<
        usize,
    >)
        requires
            pos < chars.len(),
        ensures
            match r {
                Some(k) => first_candidate(rows(self.pattern_chars@), cands@, chars@, pos as int, 0)
                    == Some(k as int),
                None => first_candidate(rows(self.pattern_chars@), cands@, chars@, pos as int, 0)
                    is None,
            },
    {
        let ghost pv = rows(self.pattern_chars@);
        let mut j: usize = 0;
        while j < cands.len()
            invariant
                j <= cands.len(),
                pos < chars.len(),
                pv == rows(self.pattern_chars@),
                first_candidate(pv, cands@, chars@, pos as int, 0) == first_candidate(
                    pv,
                    cands@,
                    chars@,
                    pos as int,
                    j as int,
                ),
            decreases cands.len() - j,
        {
            let k = cands[j];
            if k < self.pattern_chars.len() {
                let p = &self.pattern_chars[k];
                assert(pv[k as int] == p@);
                if p.len() <= pos + 1 {
                    if matches_at(chars, p, pos + 1 - p.len()) {
                        return Some(k);
                    }
                }
            }
            j += 1;
        }
        None
    }

    /// Tries the candidates listed under the hash of the block that ends at
    /// `pos` against the text ending at `pos`.
    fn probe_at(&self, chars: &Vec<char>, pos: usize) -> (r: Option<usize>)
        requires
            pos < chars.len(),
            self.block_size <= pos + 1,
        ensures
            match r {
                Some(k) => probe(rows(self.pattern_chars@), self.block_size as int, chars@, pos as int)
                    == Some(k as int),
                None => probe(rows(self.pattern_chars@), self.block_size as int, chars@, pos as int)
                    is None,
            },
    {
        proof {
            use_type_invariant(self);
        }
        let b = self.block_size;
        let h = hash_window(chars, pos + 1 - b, b);
        match self.hash_table.get(h) {
            Some(cands) => self.verify_matches(chars, pos, &cands),
            None => None,
        }
    }

    /// The strict search: the block-hash scan over the characters of the
    /// text. The scan looks at the block that ends at a position. Without
    /// a shift entry for the block no pattern can end within the next
    /// `min_len - b` positions; with a positive entry none can end before
    /// that many positions have passed, as far as the same bound reaches;
    /// with entry zero the candidates listed for the block are compared.
    fn search_strict(&self, chars: &Vec<char>) -> (r: Option<usize>)
        requires
            self.patterns@.len() > 0,
        ensures
            match r {
                Some(k) => strict_search(rows(self.pattern_chars@), chars@) == Some(k as int) && k
                    < self.patterns@.len(),
                None => strict_search(rows(self.pattern_chars@), chars@) is None,
            },
    {
        proof {
            use_type_invariant(self);
            lemma_kept_nonempty(views(self.given_patterns@), self.space_handling);
            lemma_min_length(rows(self.pattern_chars@));
        }
        let ghost pv = rows(self.pattern_chars@);
        let n = chars.len();
        let m = self.min_len;
        let b = self.block_size;
        assert(long_enough(pv, m as int));
        let count = self.pattern_chars.len();
        assert(pv.len() == count);
        proof {
            // no pattern ends before it has had room for its characters
            assert forall|k: int, e: int| 0 <= k < pv.len() && 0 <= e < m - 1 implies !#[trigger] ends_at(
                chars@,
                pv[k],
                e,
            ) by {
                assert(pv[k].len() >= m);
            }
        }
        if n < m {
            proof {
                assert(none_ends_between(pv, chars@, 0, n as int));
                lemma_find_skip(pv, chars@, 0, n as int);
            }
            return None;
        }
        let mut pos: usize = m - 1;
        proof {
            assert(none_ends_between(pv, chars@, 0, pos as int));
            lemma_find_skip(pv, chars@, 0, pos as int);
        }
        loop
            invariant
                pos < n,
                n == chars.len(),
                m == self.min_len,
                b == self.block_size,
                b <= m,
                1 <= m,
                m - 1 <= pos,
                pv == rows(self.pattern_chars@),
                pv.len() == self.patterns@.len(),
                pv.len() <= usize::MAX,
                long_enough(pv, m as int),
                shift_table_ok(self.shift_table@, pv, b as int),
                strict_search(pv, chars@) == strict_find(pv, chars@, pos as int),
            decreases n - pos,
        {
            let h = hash_window(chars, pos + 1 - b, b);
            let room = n - pos;
            let found = self.shift_table.get(h);
            // the number of positions to move on by, less one
            let limit: usize = match found {
                None => {
                    proof {
                        assert(!self.shift_table@.contains_key(h));
                        lemma_skip_without_entry(pv, b as int, m as int, chars@, pos as int);
                        assert(none_ends_between(pv, chars@, pos as int, pos + (m - b) + 1));
                    }
                    m - b
                },
                Some(d) => {
                    proof {
                        assert(self.shift_table@.contains_key(h));
                        lemma_skip_by_shift(pv, b as int, m as int, chars@, pos as int, d as int);
                    }
                    if d == 0 {
                        proof {
                            lemma_probe(pv, b as int, m as int, chars@, pos as int);
                            lemma_first_ending(pv, chars@, pos as int, 0);
                        }
                        match self.probe_at(chars, pos) {
                            Some(k) => {
                                return Some(k);
                            },
                            None => {},
                        }
                        assert(none_ends_between(pv, chars@, pos as int, pos + 1));
                        0
                    } else if d <= m - b {
                        assert(none_ends_between(pv, chars@, pos as int, pos + (d - 1) + 1));
                        d - 1
                    } else {
                        assert(none_ends_between(pv, chars@, pos as int, pos + (m - b) + 1));
                        m - b
                    }
                },
            };
            assert(none_ends_between(pv, chars@, pos as int, pos + limit + 1));
            if limit >= room - 1 {
                proof {
                    lemma_find_skip(pv, chars@, pos as int, n as int);
                }
                return None;
            }
            proof {
                lemma_find_skip(pv, chars@, pos as int, pos + limit + 1);
            }
            pos = pos + limit + 1;
        }
    }

    /// The first term of the vocabulary that is a hit in the text, by
    /// direct containment, and its canonical form.
    fn search_with_preprocessing(&self, chars: &Vec<char>) -> (r: Option<(usize, Vec<char>)>)
        ensures
            match r {
                Some(found) => first_contained(
                    views(self.given_patterns@),
                    self.space_handling,
                    chars@,
                    0,
                ) == Some(found.0 as int) && found.0 < self.given_patterns@.len() && found.1@
                    == preprocess(self.given_patterns@[found.0 as int]@, self.space_handling),
                None => first_contained(
                    views(self.given_patterns@),
                    self.space_handling,
                    chars@,
                    0,
                ) is None,
            },
    {
        let ghost gv = views(self.given_patterns@);
        let processed_text = preprocess_chars(chars, self.space_handling);
        let mut i: usize = 0;
        while i < self.given_patterns.len()
            invariant
                i <= self.given_patterns.len(),
                gv == views(self.given_patterns@),
                processed_text@ == preprocess(chars@, self.space_handling),
                first_contained(gv, self.space_handling, chars@, 0) == first_contained(
                    gv,
                    self.space_handling,
                    chars@,
                    i as int,
                ),
            decreases self.given_patterns.len() - i,
        {
            let term = to_chars(self.given_patterns[i].as_str());
            let processed_pattern = preprocess_chars(&term, self.space_handling);
            assert(gv[i as int] == term@);
            if processed_pattern.len() > 0 && contains(&processed_text, &processed_pattern) {
                return Some((i, processed_pattern));
            }
            i += 1;
        }
        None
    }

    /// Finds the first match in `text` and returns its canonical form.
    ///
    /// Only the strict policy runs the block-hash scan. Under the policies
    /// that ignore or normalise whitespace the tables are not used: the
    /// text is canonicalised and every term is tried by direct containment,
    /// which takes time proportional to the size of the vocabulary.
    pub fn search(&self, text: &str) -> (r: Option<Arc<String>>)
        ensures
            match self.search_result(text@) {
                Some(w) => r is Some && r.unwrap()@ == w,
                None => r is None,
            },
            self.policy() == SpaceHandling::Strict && r is Some ==> contains_seq(
                text@,
                r.unwrap()@,
            ),
            self.policy() == SpaceHandling::Strict ==> (r is Some <==> exists|k: int|
                0 <= k < self.processed().len() && contains_seq(
                    text@,
                    #[trigger] self.processed()[k],
                )),
    {
        proof {
            use_type_invariant(self);
            lemma_strict_search(self.processed(), text@);
            lemma_kept_nonempty(views(self.given_patterns@), self.space_handling);
        }
        let chars = to_chars(text);
        match self.space_handling {
            SpaceHandling::Strict => {
                if self.patterns.len() == 0 {
                    return None;
                }
                match self.search_strict(&chars) {
                    Some(k) => {
                        let p = Arc::clone(&self.patterns[k]);
                        assert(p@ == arc_views(self.patterns@)[k as int]);
                        Some(p)
                    },
                    None => None,
                }
            },
            _ => match self.search_with_preprocessing(&chars) {
                Some(found) => Some(Arc::new(from_chars(&found.1))),
                None => None,
            },
        }
    }

    /// Finds the first match in `text` and returns the term as given.
    pub fn search_string(&self, text: &str) -> (r: Option<String>)
        ensures
            match self.search_string_result(text@) {
                Some(s) => r is Some && r.unwrap()@ == s,
                None => r is None,
            },
            self.policy() == SpaceHandling::Strict && r is Some ==> contains_seq(
                text@,
                r.unwrap()@,
            ),
            self.policy() == SpaceHandling::Strict ==> (r is Some <==> exists|k: int|
                0 <= k < self.processed().len() && contains_seq(
                    text@,
                    #[trigger] self.processed()[k],
                )),
    {
        proof {
            use_type_invariant(self);
        }
        match self.space_handling {
            SpaceHandling::Strict => match self.search(text) {
                Some(p) => Some(String::clone(&p)),
                None => None,
            },
            _ => {
                let chars = to_chars(text);
                match self.search_with_preprocessing(&chars) {
                    Some(found) => Some(self.given_patterns[found.0].clone()),
                    None => None,
                }
            },
        }
    }

    /// Finds every term that is a hit in `text`, in vocabulary order, and
    /// returns the canonical form of each.
    pub fn search_all(&self, text: &str) -> (r: Vec<Arc<String>>)
        ensures
            arc_views(r@) == hit_forms(
                self.given(),
                self.policy(),
                text@,
                self.given().len() as int,
            ),
    {
        let mut results: Vec<Arc<String>> = Vec::new();
        let chars = to_chars(text);
        let ghost gv = views(self.given_patterns@);
        let processed_text = preprocess_chars(&chars, self.space_handling);
        let mut i: usize = 0;
        assert(arc_views(results@) =~= hit_forms(gv, self.space_handling, text@, 0));
        while i < self.given_patterns.len()
            invariant
                i <= self.given_patterns.len(),
                gv == views(self.given_patterns@),
                processed_text@ == preprocess(text@, self.space_handling),
                arc_views(results@) == hit_forms(gv, self.space_handling, text@, i as int),
            decreases self.given_patterns.len() - i,
        {
            let term = to_chars(self.given_patterns[i].as_str());
            let processed_pattern = preprocess_chars(&term, self.space_handling);
            assert(gv[i as int] == term@);
            if processed_pattern.len() > 0 && contains(&processed_text, &processed_pattern) {
                let ghost before = arc_views(results@);
                let p = Arc::new(from_chars(&processed_pattern));
                assert(p@ == processed_pattern@);
                results.push(p);
                assert(arc_views(results@) =~= before.push(processed_pattern@));
            }
            i += 1;
        }
        results
    }

    /// Finds every term that is a hit in `text`, in vocabulary order, and
    /// returns each as given.
    pub fn search_all_strings(&self, text: &str) -> (r: Vec<String>)
        ensures
            views(r@) == hit_strings(
                self.given(),
                self.policy(),
                text@,
                self.given().len() as int,
            ),
    {
        let mut results: Vec<String> = Vec::new();
        let chars = to_chars(text);
        let ghost gv = views(self.given_patterns@);
        let processed_text = preprocess_chars(&chars, self.space_handling);
        let mut i: usize = 0;
        assert(views(results@) =~= hit_strings(gv, self.space_handling, text@, 0));
        while i < self.given_patterns.len()
            invariant
                i <= self.given_patterns.len(),
                gv == views(self.given_patterns@),
                processed_text@ == preprocess(text@, self.space_handling),
                views(results@) == hit_strings(gv, self.space_handling, text@, i as int),
            decreases self.given_patterns.len() - i,
        {
            let term = to_chars(self.given_patterns[i].as_str());
            let processed_pattern = preprocess_chars(&term, self.space_handling);
            assert(gv[i as int] == term@);
            if processed_pattern.len() > 0 && contains(&processed_text, &processed_pattern) {
                let ghost before = views(results@);
                results.push(self.given_patterns[i].clone());
                assert(views(results@) =~= before.push(gv[i as int]));
            }
            i += 1;
        }
        results
    }


    /// Replaces, term by term in vocabulary order, every occurrence of the
    /// term by as many copies of `replacement` as the term has characters.
    pub fn replace_all(&self, text: &str, replacement: char) -> (r: String)
        ensures
            r@ == mask_each(text@, self.given(), replacement, self.given().len() as int),
            r@.len() == text@.len(),
            forall|p: int|
                0 <= p < text@.len() ==> #[trigger] r@[p] == text@[p] || r@[p] == replacement,
    {
        proof {
            lemma_mask_keeps_places(
                text@,
                self.given(),
                replacement,
                self.given().len() as int,
            );
        }
        let ghost ov = views(self.given_patterns@);
        let mut result = to_chars(text);
        let mut i: usize = 0;
        while i < self.given_patterns.len()
            invariant
                i <= self.given_patterns.len(),
                ov == views(self.given_patterns@),
                result@ == mask_each(text@, ov, replacement, i as int),
            decreases self.given_patterns.len() - i,
        {
            let pattern = to_chars(self.given_patterns[i].as_str());
            assert(ov[i as int] == pattern@);
            let fill = repeat(replacement, pattern.len());
            result = replace_chars(&result, &pattern, &fill);
            i += 1;
        }
        from_chars(&result)
    }

    /// Removes, term by term in vocabulary order, every occurrence of the
    /// term.
    pub fn remove_all(&self, text: &str) -> (r: String)
        ensures
            r@ == remove_each(text@, self.given(), self.given().len() as int),
    {
        let ghost ov = views(self.given_patterns@);
        let mut result = to_chars(text);
        let nothing: Vec<char> = Vec::new();
        let mut i: usize = 0;
        while i < self.given_patterns.len()
            invariant
                i <= self.given_patterns.len(),
                ov == views(self.given_patterns@),
                nothing@ == Seq::<char>::empty(),
                result@ == remove_each(text@, ov, i as int),
            decreases self.given_patterns.len() - i,
        {
            let pattern = to_chars(self.given_patterns[i].as_str());
            assert(ov[i as int] == pattern@);
            result = replace_chars(&result, &pattern, &nothing);
            i += 1;
        }
        from_chars(&result)
    }

    /// The canonical patterns the matcher indexes.
    pub fn patterns(&self) -> (r: &[Arc<String>])
        ensures
            arc_views(r@) == self.processed(),
    {
        self.patterns.as_slice()
    }

    /// The vocabulary as given.
    pub fn patterns_strings(&self) -> (r: Vec<String>)
        ensures
            views(r@) == self.given(),
    {
        let mut out: Vec<String> = Vec::new();
        let mut i: usize = 0;
        while i < self.given_patterns.len()
            invariant
                i <= self.given_patterns.len(),
                out@.len() == i,
                forall|j: int| 0 <= j < i ==> out@[j]@ == self.given_patterns@[j]@,
            decreases self.given_patterns.len() - i,
        {
            out.push(self.given_patterns[i].clone());
            i += 1;
        }
        assert(views(out@) =~= views(self.given_patterns@));
        out
    }

    /// Whether `pattern` is one of the canonical patterns.
    pub fn contains_pattern(&self, pattern: &str) -> (b: bool)
        ensures
            b == self.processed().contains(pattern@),
    {
        proof {
            use_type_invariant(self);
        }
        let target = to_chars(pattern);
        let mut i: usize = 0;
        while i < self.pattern_chars.len()
            invariant
                i <= self.pattern_chars.len(),
                target@ == pattern@,
                arc_views(self.patterns@) == rows(self.pattern_chars@),
                forall|j: int| 0 <= j < i ==> rows(self.pattern_chars@)[j] != pattern@,
            decreases self.pattern_chars.len() - i,
        {
            let p = &self.pattern_chars[i];
            assert(rows(self.pattern_chars@)[i as int] == p@);
            if p.len() == target.len() && matches_at(p, &target, 0) {
                assert(p@.subrange(0, p@.len() as int) == p@);
                return true;
            }
            proof {
                if p@ == target@ {
                    assert(p@.subrange(0, p@.len() as int) == p@);
                }
            }
            i += 1;
        }
        false
    }

    /// The whitespace policy in force.
    pub fn space_handling(&self) -> (p: SpaceHandling)
        ensures
            p == self.policy(),
    {
        self.space_handling
    }

    /// Sizes of the matcher. The block size never exceeds the length of the
    /// shortest canonical pattern when there is one.
    pub fn stats(&self) -> (s: WuManberStats)
        ensures
            s.pattern_count == self.processed().len(),
            s.min_length == self.shortest(),
            s.block_size == self.block(),
            s.shift_table_size == shift_keys(self.processed(), self.block() as int).len(),
            s.hash_table_size == suffix_keys(self.processed(), self.block() as int).len(),
            s.pattern_count > 0 ==> s.block_size <= s.min_length,
            s.min_length == min_length(self.processed()),
            self.processed() == kept_patterns(self.given(), self.policy()),
    {
        proof {
            use_type_invariant(self);
            let pv = rows(self.pattern_chars@);
            assert(self.shift_table@.dom() =~= shift_keys(pv, self.block_size as int));
            assert(self.hash_table@.dom() =~= suffix_keys(pv, self.block_size as int));
        }
        WuManberStats {
            pattern_count: self.patterns.len(),
            min_length: self.min_len,
            block_size: self.block_size,
            shift_table_size: self.shift_table.len(),
            hash_table_size: self.hash_table.len(),
        }
    }
}

impl WuManber {
    /// Finds the byte interval of every occurrence of every vocabulary term
    /// in `text`, overlapping ones included, ordered by start and, among
    /// equal starts, by the term's place in the vocabulary. Offsets fall on
    /// character boundaries.
    pub fn find_matches(&self, text: &str) -> (r: Vec<Match>)
        ensures
            r@ == matches_before(text@, self.given(), text@.len() as int),
            forall|j: int|
                0 <= j < r@.len() ==> valid_span(
                    text@,
                    (#[trigger] r@[j]).start as int,
                    r@[j].end as int,
                ),
    {
        let ghost ov = views(self.given_patterns@);
        let (chars, offsets) = char_offsets(text);
        let mut pats: Vec<Vec<char>> = Vec::new();
        let mut k: usize = 0;
        while k < self.given_patterns.len()
            invariant
                k <= self.given_patterns.len(),
                pats@.len() == k,
                forall|j: int| 0 <= j < k ==> pats@[j]@ == self.given_patterns@[j]@,
            decreases self.given_patterns.len() - k,
        {
            pats.push(to_chars(self.given_patterns[k].as_str()));
            k += 1;
        }
        assert(rows(pats@) =~= ov);
        let mut out: Vec<Match> = Vec::new();
        let n = chars.len();
        let mut i: usize = 0;
        while i < n
            invariant
                i <= n,
                n == chars.len(),
                chars@ == text@,
                rows(pats@) == ov,
                pats@.len() == ov.len(),
                offsets@.len() == n + 1,
                forall|j: int| 0 <= j <= n ==> offsets@[j] == byte_offset(chars@, j),
                out@ == matches_before(text@, ov, i as int),
                forall|j: int|
                    0 <= j < out@.len() ==> valid_span(
                        text@,
                        (#[trigger] out@[j]).start as int,
                        out@[j].end as int,
                    ),
            decreases n - i,
        {
            let ghost row_start = out@;
            let mut k: usize = 0;
            while k < pats.len()
                invariant
                    k <= pats.len(),
                    i < n,
                    n == chars.len(),
                    chars@ == text@,
                    rows(pats@) == ov,
                    pats@.len() == ov.len(),
                    offsets@.len() == n + 1,
                    forall|j: int| 0 <= j <= n ==> offsets@[j] == byte_offset(chars@, j),
                    out@ == row_start + matches_at_index(text@, ov, i as int, k as int),
                    forall|j: int|
                        0 <= j < out@.len() ==> valid_span(
                            text@,
                            (#[trigger] out@[j]).start as int,
                            out@[j].end as int,
                        ),
                decreases pats.len() - k,
            {
                let p = &pats[k];
                assert(ov[k as int] == p@);
                if p.len() > 0 && matches_at(&chars, p, i) {
                    let m = Match { start: offsets[i], end: offsets[i + p.len()] };
                    assert(m == match_of(text@, ov[k as int], i as int));
                    proof {
                        lemma_offsets_ordered(text@, i as int, i + p.len());
                        assert(byte_offset(text@, i as int) == m.start);
                        assert(byte_offset(text@, i + p.len()) == m.end);
                    }
                    out.push(m);
                }
                k += 1;
                assert(out@ =~= row_start + matches_at_index(text@, ov, i as int, k as int));
            }
            i += 1;
        }
        out
    }
}

impl WuManber {
    /// Estimates the memory the matcher holds, with the sizes of this
    /// machine. The size of a suffix list is not known to the contract.
    pub fn memory_stats(&self) -> (s: WuManberMemoryStats)
        ensures
            exists|slot: usize|
                s == #[trigger] memory_estimate(
                    self.processed(),
                    self.block() as int,
                    vstd::layout::size_of::<Arc<String>>() as usize,
                    vstd::layout::size_of::<u64>() as usize,
                    vstd::layout::size_of::<usize>() as usize,
                    slot,
                ),
    {
        let pointer = core::mem::size_of::<Arc<String>>();
        let key = core::mem::size_of::<u64>();
        let word = core::mem::size_of::<usize>();
        let slot = suffix_slot_size();
        let s = self.memory_stats_with(pointer, key, word, slot);
        proof {
            assert(pointer == vstd::layout::size_of::<Arc<String>>() as usize);
            assert(key == vstd::layout::size_of::<u64>() as usize);
            assert(word == vstd::layout::size_of::<usize>() as usize);
            assert(s == memory_estimate(
                self.processed(),
                self.block() as int,
                vstd::layout::size_of::<Arc<String>>() as usize,
                vstd::layout::size_of::<u64>() as usize,
                vstd::layout::size_of::<usize>() as usize,
                slot,
            ));
        }
        s
    }

    /// Estimates the memory the matcher holds, for the given sizes in bytes
    /// of a shared string handle, a table key, a machine word and a suffix
    /// list.
    pub fn memory_stats_with(&self, pointer: usize, key: usize, word: usize, slot: usize) -> (s:
        WuManberMemoryStats)
        ensures
            s == memory_estimate(self.processed(), self.block() as int, pointer, key, word, slot),
    {
        proof {
            use_type_invariant(self);
        }
        let ghost pv = rows(self.pattern_chars@);
        let ghost b = self.block_size as int;
        let n = self.patterns.len();
        let mut bytes: usize = 0;
        let mut i: usize = 0;
        assert(total_bytes(pv.take(0)) == 0);
        while i < self.patterns.len()
            invariant
                i <= self.patterns@.len(),
                pv == arc_views(self.patterns@),
                bytes == capped(total_bytes(pv.take(i as int)) as int),
            decreases self.patterns.len() - i,
        {
            let size = byte_length(self.patterns[i].as_str());
            proof {
                assert(pv.take(i + 1).drop_last() == pv.take(i as int));
                assert(pv.take(i + 1).last() == self.patterns@[i as int]@);
                lemma_capped_sum(total_bytes(pv.take(i as int)) as int, size as int);
            }
            bytes = sat_add(bytes, size);
            i += 1;
        }
        assert(pv.take(n as int) == pv);
        let shift_len = self.shift_table.len();
        let suffix_len = self.hash_table.len();
        let order = sorted_indices(&self.pattern_chars);
        let distinct = order.len();
        proof {
            assert(self.shift_table@.dom() =~= shift_keys(pv, b));
            assert(self.hash_table@.dom() =~= suffix_keys(pv, b));
            lemma_is_sorted_set(picked(pv, order@), pv);
        }
        let handles = sat_mul(n, pointer);
        let patterns_memory = sat_add(handles, bytes);
        let shift_entry = sat_add(key, word);
        let shift_table_memory = sat_mul(shift_len, shift_entry);
        let suffix_entry = sat_add(key, slot);
        let suffix_lists = sat_mul(suffix_len, suffix_entry);
        let suffix_items = sat_mul(n, word);
        let hash_table_memory = sat_add(suffix_lists, suffix_items);
        let pattern_set_memory = sat_mul(distinct, pointer);
        let total_memory = sat_add(
            sat_add(sat_add(patterns_memory, shift_table_memory), hash_table_memory),
            pattern_set_memory,
        );
        proof {
            let e_patterns = n * pointer + total_bytes(pv);
            let e_shift = shift_len * (key + word);
            let e_suffix = suffix_len * (key + slot) + n * word;
            let e_set = distinct * pointer;
            assert(n * pointer >= 0 && shift_len * (key + word) >= 0 && suffix_len * (key + slot) >= 0
                && n * word >= 0 && distinct * pointer >= 0) by (nonlinear_arith);
            lemma_capped_sum(n * pointer, total_bytes(pv) as int);
            assert(patterns_memory == capped(e_patterns));
            lemma_capped_product((key + word) as int, shift_len as int);
            assert(capped(key + word) * shift_len == shift_len * capped(key + word)) by (nonlinear_arith);
            assert((key + word) * shift_len == shift_len * (key + word)) by (nonlinear_arith);
            assert(shift_table_memory == capped(e_shift));
            lemma_capped_product((key + slot) as int, suffix_len as int);
            assert(capped(key + slot) * suffix_len == suffix_len * capped(key + slot)) by (nonlinear_arith);
            assert((key + slot) * suffix_len == suffix_len * (key + slot)) by (nonlinear_arith);
            lemma_capped_sum(suffix_len * (key + slot), n * word);
            assert(hash_table_memory == capped(e_suffix));
            lemma_capped_sum(e_patterns, e_shift);
            lemma_capped_sum(e_patterns + e_shift, e_suffix);
            lemma_capped_sum(e_patterns + e_shift + e_suffix, e_set);
            assert(total_memory == capped(e_patterns + e_shift + e_suffix + e_set));
        }
        WuManberMemoryStats {
            total_patterns: n,
            patterns_memory,
            shift_table_memory,
            hash_table_memory,
            total_memory,
        }
    }
}

} // verus!
