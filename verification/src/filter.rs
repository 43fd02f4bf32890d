//! The filter: noise stripping, exact matching, evasion detection and a
//! bounded result cache, composed into find, replace and remove operations.

use vstd::prelude::*;
use lru::LruCache;
use regex::Regex;
use crate::cache::{
    after_get, after_put, cache_clear, cache_entries, cache_get, cache_limit, cache_new, cache_put,
    cached,
};
use crate::engine::{
    all_matches_of, first_match_of, lemma_strict_first, recommended, resolved, usable,
    MatchAlgorithm, MultiPatternEngine,
};
use crate::engine::backends::{
    regex_compiles, regex_new, regex_plain, regex_replace_all, regex_replaced, regex_source,
};
use crate::engine::canon::lemma_kept_strict_members;
use crate::engine::wumanber::{lemma_mask_keeps_places, mask_each, remove_each, WuManber};
use crate::order::{
    lemma_longest_first_members, longest_first, same, sort_dedup_strings, sort_longest_first,
    sorted_set, str_views,
};
use crate::text::{
    byte_len, byte_length, chunks_of, clone_strings, contains, contains_seq, from_chars,
    is_white_space, lemma_interleave_nothing, lemma_one_word, lemma_replace_all_absent, lines_of,
    repeat, replace_all, replace_chars, rows, split_chunks, split_lines, split_words, to_chars,
    views, words_of,
};
use crate::variant::{disguised, learnable, lemma_disguised_exists, VariantDetector};

verus! {

/// Source of the noise expression a new filter starts with: everything but
/// word characters, whitespace and the CJK unified ideographs.
pub open spec fn default_noise() -> Seq<char> {
    "[^\\w\\s\\u4e00-\\u9fff]"@
}

/// Number of texts a new filter caches results for.
pub open spec fn default_cache_limit() -> nat {
    1000
}

/// `text` without what the noise expression matches. A filter without a
/// noise expression strips nothing.
pub open spec fn stripped(noise: Option<Seq<char>>, text: Seq<char>) -> Seq<char> {
    match noise {
        Some(source) => regex_replaced(source, text, ""@),
        None => text,
    }
}

/// `pats` without the terms equal to `word`.
pub open spec fn without_word(pats: Seq<Seq<char>>, word: Seq<char>) -> Seq<Seq<char>>
    decreases pats.len(),
{
    if pats.len() == 0 {
        pats
    } else if pats.last() == word {
        without_word(pats.drop_last(), word)
    } else {
        without_word(pats.drop_last(), word).push(pats.last())
    }
}

/// `pats` without the terms that occur in `words`.
pub open spec fn without_words(pats: Seq<Seq<char>>, words: Seq<Seq<char>>) -> Seq<Seq<char>>
    decreases pats.len(),
{
    if pats.len() == 0 {
        pats
    } else if words.contains(pats.last()) {
        without_words(pats.drop_last(), words)
    } else {
        without_words(pats.drop_last(), words).push(pats.last())
    }
}

/// What a detector that knows `known` knows after the first `n` of `words`
/// have been added.
pub open spec fn learnt(known: Set<char>, words: Seq<Seq<char>>, n: int) -> Set<char>
    decreases n,
{
    if n <= 0 {
        known
    } else {
        learnt(known, words, n - 1).union(learnable(words[n - 1]))
    }
}

/// The terms that replacing and removing work through, in order: the
/// vocabulary and the terms detected in disguise, longest first, so that no
/// term is taken out of the middle of a longer one that is still to come.
pub open spec fn terms_for(vocab: Seq<Seq<char>>, known: Set<char>, clean: Seq<char>) -> Seq<
    Seq<char>,
> {
    longest_first(vocab + disguised(known, clean, vocab))
}

/// What finding the first term in the stripped text `clean` reports: the
/// engine's first match, else the least of the terms detected in disguise,
/// else nothing.
pub open spec fn find_in_result(
    backend: MatchAlgorithm,
    vocab: Seq<Seq<char>>,
    known: Set<char>,
    clean: Seq<char>,
) -> (bool, Seq<char>) {
    match first_match_of(backend, vocab, clean) {
        Some(s) => (true, s),
        None => if disguised(known, clean, vocab).len() > 0 {
            (true, disguised(known, clean, vocab)[0])
        } else {
            (false, Seq::empty())
        },
    }
}

/// The stripped text `clean` with every term masked, character for
/// character, by `c`.
pub open spec fn masked(vocab: Seq<Seq<char>>, known: Set<char>, clean: Seq<char>, c: char) -> Seq<
    char,
> {
    mask_each(clean, terms_for(vocab, known, clean), c, terms_for(vocab, known, clean).len() as int)
}

/// The stripped text `clean` with every term removed.
pub open spec fn filtered(vocab: Seq<Seq<char>>, known: Set<char>, clean: Seq<char>) -> Seq<char> {
    remove_each(clean, terms_for(vocab, known, clean), terms_for(vocab, known, clean).len() as int)
}

/// Removing terms from a text in which none of them occurs leaves the text
/// as it is.
pub proof fn lemma_remove_absent(text: Seq<char>, pats: Seq<Seq<char>>, n: int)
    requires
        n <= pats.len(),
        forall|k: int| 0 <= k < n ==> pats[k].len() == 0 || !contains_seq(text, #[trigger] pats[k]),
    ensures
        remove_each(text, pats, n) == text,
    decreases n,
{
    if n > 0 {
        lemma_remove_absent(text, pats, n - 1);
        if pats[n - 1].len() == 0 {
            lemma_interleave_nothing(text);
        } else {
            lemma_replace_all_absent(text, pats[n - 1], Seq::empty());
        }
    }
}

/// Filtering is idempotent on its fixed points: a stripped text in which no
/// term of the vocabulary occurs comes back unchanged, so a second pass
/// over the outcome of a first pass that left no term behind changes
/// nothing.
pub proof fn lemma_filter_fixed_point(vocab: Seq<Seq<char>>, known: Set<char>, clean: Seq<char>)
    requires
        forall|w: Seq<char>| #[trigger] vocab.contains(w) ==> w.len() == 0 || !contains_seq(clean, w),
    ensures
        filtered(vocab, known, clean) == clean,
{
    let terms = terms_for(vocab, known, clean);
    let second = disguised(known, clean, vocab);
    let all = vocab + second;
    lemma_longest_first_members(all);
    lemma_disguised_members(known, clean, vocab);
    assert forall|k: int| 0 <= k < terms.len() implies terms[k].len() == 0 || !contains_seq(
        clean,
        #[trigger] terms[k],
    ) by {
        assert(terms.contains(terms[k]));
        assert(all.contains(terms[k]));
        let j = choose|j: int| 0 <= j < all.len() && all[j] == terms[k];
        if j < vocab.len() {
            assert(vocab[j] == terms[k]);
            assert(vocab.contains(terms[k]));
        } else {
            assert(second[j - vocab.len()] == terms[k]);
            assert(second.contains(terms[k]));
        }
    }
    lemma_remove_absent(clean, terms, terms.len() as int);
}

/// Where the stripped text is one chunk and one whitespace-delimited
/// segment, the chunked scan finds what the whole scan finds. Beyond that
/// the two scans can differ: chunks do not overlap, and the evasion
/// detector sees the segments one by one.
pub proof fn lemma_one_chunk_scan(
    backend: MatchAlgorithm,
    vocab: Seq<Seq<char>>,
    known: Set<char>,
    clean: Seq<char>,
    workers: nat,
)
    requires
        0 < clean.len() <= chunk_size_for(byte_len(clean), workers),
        forall|i: int| 0 <= i < clean.len() ==> !is_white_space(#[trigger] clean[i]),
    ensures
        found_chunked(backend, vocab, known, clean, workers) == found_whole(
            backend,
            vocab,
            known,
            clean,
        ),
{
    let size = chunk_size_for(byte_len(clean), workers) as int;
    let chunks = chunks_of(clean, size);
    assert(chunks == seq![clean]);
    lemma_one_word(clean);
    let segments = words_of(clean);
    assert(chunk_hits(backend, vocab, chunks, 0) =~= Seq::<Seq<char>>::empty());
    assert(chunk_hits(backend, vocab, chunks, 1) =~= all_matches_of(backend, vocab, clean));
    assert(segment_hits(known, vocab, segments, 0) =~= Seq::<Seq<char>>::empty());
    assert(segment_hits(known, vocab, segments, 1) =~= disguised(known, clean, vocab));
}

/// Idempotence of filtering: where one pass has left no term of the
/// vocabulary behind, a second pass over its outcome changes nothing.
pub proof fn lemma_filter_twice(vocab: Seq<Seq<char>>, known: Set<char>, clean: Seq<char>)
    requires
        forall|w: Seq<char>| #[trigger]
            vocab.contains(w) ==> w.len() == 0 || !contains_seq(
                filtered(vocab, known, clean),
                w,
            ),
    ensures
        filtered(vocab, known, filtered(vocab, known, clean)) == filtered(vocab, known, clean),
{
    lemma_filter_fixed_point(vocab, known, filtered(vocab, known, clean));
}

/// An exact match is preferred to a disguised one: on the block-hash back
/// end, where a term with characters occurs in the stripped text, a term
/// that occurs is reported. Whatever is reported with the flag set is a
/// term of the vocabulary that has characters.
pub proof fn lemma_find_in_exact(vocab: Seq<Seq<char>>, known: Set<char>, clean: Seq<char>)
    ensures
        (exists|k: int| 0 <= k < vocab.len() && vocab[k].len() > 0 && contains_seq(
            clean,
            #[trigger] vocab[k],
        )) ==> find_in_result(MatchAlgorithm::WuManber, vocab, known, clean).0 && contains_seq(
            clean,
            find_in_result(MatchAlgorithm::WuManber, vocab, known, clean).1,
        ),
        find_in_result(MatchAlgorithm::WuManber, vocab, known, clean).0 ==> vocab.contains(
            find_in_result(MatchAlgorithm::WuManber, vocab, known, clean).1,
        ) && find_in_result(MatchAlgorithm::WuManber, vocab, known, clean).1.len() > 0,
        !find_in_result(MatchAlgorithm::WuManber, vocab, known, clean).0 ==> find_in_result(
            MatchAlgorithm::WuManber,
            vocab,
            known,
            clean,
        ).1.len() == 0,
{
    lemma_strict_first(vocab, clean);
    lemma_kept_strict_members(vocab);
    lemma_disguised_exists(known, clean, vocab);
    let d = disguised(known, clean, vocab);
    if d.len() > 0 {
        assert(d.contains(d[0]));
    }
    if exists|k: int| 0 <= k < vocab.len() && vocab[k].len() > 0 && contains_seq(
        clean,
        #[trigger] vocab[k],
    ) {
        let k = choose|k: int| 0 <= k < vocab.len() && vocab[k].len() > 0 && contains_seq(
            clean,
            #[trigger] vocab[k],
        );
        assert(vocab.contains(vocab[k]));
        assert(usable(vocab).contains(vocab[k]));
    }
}

/// Every term detected in disguise is a term of the vocabulary.
pub proof fn lemma_disguised_members(known: Set<char>, text: Seq<char>, vocab: Seq<Seq<char>>)
    ensures
        forall|w: Seq<char>| #[trigger]
            disguised(known, text, vocab).contains(w) ==> vocab.contains(w),
{
    lemma_disguised_exists(known, text, vocab);
}

/// Byte length above which a stripped text is scanned in chunks.
pub open spec fn chunking_threshold() -> nat {
    1000
}

/// Number of characters in a chunk for a stripped text of `bytes` bytes and
/// `workers` workers: the bytes shared out evenly, but at least 100.
pub open spec fn chunk_size_for(bytes: nat, workers: nat) -> nat {
    if workers > 0 && bytes / workers > 100 {
        bytes / workers
    } else {
        100
    }
}

/// What the engine finds in the first `n` of `chunks`, chunk after chunk.
pub open spec fn chunk_hits(
    backend: MatchAlgorithm,
    vocab: Seq<Seq<char>>,
    chunks: Seq<Seq<char>>,
    n: int,
) -> Seq<Seq<char>>
    decreases n,
{
    if n <= 0 {
        Seq::empty()
    } else {
        chunk_hits(backend, vocab, chunks, n - 1) + all_matches_of(backend, vocab, chunks[n - 1])
    }
}

/// What the evasion detector finds in the first `n` of `segments`, segment
/// after segment.
pub open spec fn segment_hits(
    known: Set<char>,
    vocab: Seq<Seq<char>>,
    segments: Seq<Seq<char>>,
    n: int,
) -> Seq<Seq<char>>
    decreases n,
{
    if n <= 0 {
        Seq::empty()
    } else {
        segment_hits(known, vocab, segments, n - 1) + disguised(known, segments[n - 1], vocab)
    }
}

/// What a scan of the whole stripped text `clean` finds: the engine's
/// matches and the terms detected in disguise, each once, ascending.
pub open spec fn found_whole(
    backend: MatchAlgorithm,
    vocab: Seq<Seq<char>>,
    known: Set<char>,
    clean: Seq<char>,
) -> Seq<Seq<char>> {
    sorted_set(all_matches_of(backend, vocab, clean) + disguised(known, clean, vocab))
}

/// What a chunked scan of the stripped text `clean` with `workers` workers
/// finds: the engine's matches in each chunk and the terms detected in
/// disguise in each whitespace-delimited segment, each once, ascending.
/// Chunks do not overlap, so a match that straddles a chunk boundary is not
/// found.
pub open spec fn found_chunked(
    backend: MatchAlgorithm,
    vocab: Seq<Seq<char>>,
    known: Set<char>,
    clean: Seq<char>,
    workers: nat,
) -> Seq<Seq<char>> {
    let chunks = chunks_of(clean, chunk_size_for(byte_len(clean), workers) as int);
    let segments = words_of(clean);
    sorted_set(
        chunk_hits(backend, vocab, chunks, chunks.len() as int) + segment_hits(
            known,
            vocab,
            segments,
            segments.len() as int,
        ),
    )
}

/// The text that is left of `clean` after the first `n` of `sorted` have
/// each, where it occurred, been blanked out by one space. A term without
/// characters claims nothing.
pub open spec fn layered_rest(clean: Seq<char>, sorted: Seq<Seq<char>>, n: int) -> Seq<char>
    decreases n,
{
    if n <= 0 {
        clean
    } else if sorted[n - 1].len() > 0 && contains_seq(
        layered_rest(clean, sorted, n - 1),
        sorted[n - 1],
    ) {
        replace_all(layered_rest(clean, sorted, n - 1), sorted[n - 1], seq![' '])
    } else {
        layered_rest(clean, sorted, n - 1)
    }
}

/// Those of the first `n` of `sorted` that occurred in what the terms
/// before them had left of `clean`.
pub open spec fn layered_hits(clean: Seq<char>, sorted: Seq<Seq<char>>, n: int) -> Seq<Seq<char>>
    decreases n,
{
    if n <= 0 {
        Seq::empty()
    } else if sorted[n - 1].len() > 0 && contains_seq(
        layered_rest(clean, sorted, n - 1),
        sorted[n - 1],
    ) {
        layered_hits(clean, sorted, n - 1).push(sorted[n - 1])
    } else {
        layered_hits(clean, sorted, n - 1)
    }
}

/// What longest-first matching finds in the stripped text `clean`: the
/// terms that occur, longer terms claiming their text before shorter ones
/// are tried, and the terms detected in disguise in what is left; each once,
/// ascending.
pub open spec fn found_layered(vocab: Seq<Seq<char>>, known: Set<char>, clean: Seq<char>) -> Seq<
    Seq<char>,
> {
    let sorted = longest_first(vocab);
    sorted_set(
        layered_hits(clean, sorted, sorted.len() as int) + disguised(
            known,
            layered_rest(clean, sorted, sorted.len() as int),
            sorted,
        ),
    )
}

/// The lines of a word list that name a term: the lines that are not empty.
pub open spec fn listed_words(lines: Seq<Seq<char>>) -> Seq<Seq<char>>
    decreases lines.len(),
{
    if lines.len() == 0 {
        lines
    } else if lines.last().len() == 0 {
        listed_words(lines.drop_last())
    } else {
        listed_words(lines.drop_last()).push(lines.last())
    }
}

/// `rayon::current_num_threads` tells how many threads the current pool
/// runs. The number depends on the machine and the pool.
#[verifier::external_body]
fn worker_count() -> (n: usize) {
    rayon::current_num_threads()
}

/// A noise expression: a regular expression compiled with the default
/// options.
struct Noise {
    expression: Regex,
}

impl Noise {
    #[verifier::type_invariant]
    spec fn inv(&self) -> bool {
        regex_plain(self.expression)
    }

    /// Source of the expression.
    closed spec fn source(&self) -> Seq<char> {
        regex_source(self.expression)
    }

    /// Compiles `pattern`, where it is a valid expression.
    fn compile(pattern: &str) -> (r: Option<Noise>)
        ensures
            r is Some <==> regex_compiles(pattern@),
            r is Some ==> r.unwrap().source() == pattern@,
    {
        match regex_new(pattern) {
            Ok(expression) => Some(Noise { expression }),
            Err(_) => None,
        }
    }

    /// `text` without what the expression matches.
    fn strip(&self, text: &str) -> (r: String)
        ensures
            r@ == regex_replaced(self.source(), text@, ""@),
    {
        proof {
            use_type_invariant(self);
        }
        regex_replace_all(&self.expression, text, "")
    }
}

/// Content filter over a mutable vocabulary.
pub struct Filter {
    engine: MultiPatternEngine,
    variant_detector: VariantDetector,
    noise: Option<Noise>,
    cache: LruCache<String, Vec<String>>,
}

/// The vocabulary as string slices.
fn as_strs<'a>(patterns: &'a [String]) -> (r: Vec<&'a str>)
    ensures
        str_views(r@) == views(patterns@),
{
    let mut out: Vec<&'a str> = Vec::new();
    let mut i: usize = 0;
    while i < patterns.len()
        invariant
            i <= patterns.len(),
            out@.len() == i,
            forall|j: int| 0 <= j < i ==> out@[j]@ == patterns@[j]@,
        decreases patterns.len() - i,
    {
        out.push(patterns[i].as_str());
        i += 1;
    }
    assert(str_views(out@) =~= views(patterns@));
    out
}

impl Filter {
    /// The vocabulary.
    pub closed spec fn vocabulary(&self) -> Seq<Seq<char>> {
        self.engine.vocabulary()
    }

    /// The back end in force.
    pub closed spec fn backend(&self) -> MatchAlgorithm {
        self.engine.backend()
    }

    /// The characters whose pinyin the evasion detector has learnt.
    pub closed spec fn known(&self) -> Set<char> {
        self.variant_detector.known()
    }

    /// Source of the noise expression, if the filter has one.
    pub closed spec fn noise(&self) -> Option<Seq<char>> {
        match self.noise {
            Some(noise) => Some(noise.source()),
            None => None,
        }
    }

    /// The cached results, most recently used first.
    pub closed spec fn cache(&self) -> Seq<(Seq<char>, Seq<Seq<char>>)> {
        cache_entries(self.cache)
    }

    /// The number of results the cache holds at most.
    pub closed spec fn cache_limit(&self) -> nat {
        cache_limit(self.cache)
    }

    /// This filter is a new one: no vocabulary, nothing learnt, nothing
    /// cached, and the default noise expression where that compiles.
    pub open spec fn is_new(&self, backend: MatchAlgorithm) -> bool {
        &&& self.vocabulary().len() == 0
        &&& self.backend() == backend
        &&& self.known() == Set::<char>::empty()
        &&& self.noise() == (if regex_compiles(default_noise()) {
            Some(default_noise())
        } else {
            None
        })
        &&& self.cache().len() == 0
        &&& self.cache_limit() == default_cache_limit()
    }

    /// Creates a filter with the default settings.
    pub fn new() -> (f: Self)
        ensures
            f.is_new(MatchAlgorithm::WuManber),
    {
        let none: Vec<String> = Vec::new();
        Self::with_engine(MultiPatternEngine::new(None, none.as_slice()))
    }

    /// Creates a filter with the default settings around `engine`.
    fn with_engine(engine: MultiPatternEngine) -> (f: Self)
        ensures
            f.vocabulary() == engine.vocabulary(),
            f.backend() == engine.backend(),
            f.known() == Set::<char>::empty(),
            f.noise() == (if regex_compiles(default_noise()) {
                Some(default_noise())
            } else {
                None
            }),
            f.cache().len() == 0,
            f.cache_limit() == default_cache_limit(),
    {
        let noise = Noise::compile("[^\\w\\s\\u4e00-\\u9fff]");
        Filter { engine, variant_detector: VariantDetector::new(), noise, cache: cache_new(1000) }
    }

    /// Empties the result cache.
    pub fn clear_cache(&mut self)
        ensures
            final(self).cache().len() == 0,
            final(self).cache_limit() == old(self).cache_limit(),
            final(self).vocabulary() == old(self).vocabulary(),
            final(self).backend() == old(self).backend(),
            final(self).known() == old(self).known(),
            final(self).noise() == old(self).noise(),
    {
        cache_clear(&mut self.cache);
    }

    /// Creates a filter that starts with the given back end.
    pub fn with_algorithm(algorithm: MatchAlgorithm) -> (f: Self)
        ensures
            f.is_new(algorithm),
    {
        let none: Vec<String> = Vec::new();
        Self::with_engine(MultiPatternEngine::new(Some(algorithm), none.as_slice()))
    }

    /// Replaces the noise expression by the one compiled from `pattern`.
    /// The pattern must be a valid expression; [`Filter::try_update_noise_pattern`]
    /// accepts any.
    pub fn update_noise_pattern(&mut self, pattern: &str)
        requires
            regex_compiles(pattern@),
        ensures
            final(self).noise() == Some(pattern@),
            final(self).vocabulary() == old(self).vocabulary(),
            final(self).backend() == old(self).backend(),
            final(self).known() == old(self).known(),
            final(self).cache() == old(self).cache(),
            final(self).cache_limit() == old(self).cache_limit(),
    {
        match Noise::compile(pattern) {
            Some(noise) => {
                self.noise = Some(noise);
            },
            None => {},
        }
    }

    /// Replaces the noise expression by the one compiled from `pattern` if
    /// that is a valid expression, and says whether it was. An invalid
    /// pattern leaves the filter as it is.
    pub fn try_update_noise_pattern(&mut self, pattern: &str) -> (accepted: bool)
        ensures
            accepted == regex_compiles(pattern@),
            final(self).noise() == (if accepted {
                Some(pattern@)
            } else {
                old(self).noise()
            }),
            final(self).vocabulary() == old(self).vocabulary(),
            final(self).backend() == old(self).backend(),
            final(self).known() == old(self).known(),
            final(self).cache() == old(self).cache(),
            final(self).cache_limit() == old(self).cache_limit(),
    {
        match Noise::compile(pattern) {
            Some(_) => {
                self.update_noise_pattern(pattern);
                true
            },
            None => false,
        }
    }

    /// Adds a term to the vocabulary, rebuilds the engine and lets the
    /// evasion detector learn the term. The cache is left alone.
    pub fn add_word(&mut self, word: &str)
        ensures
            final(self).vocabulary() == old(self).vocabulary().push(word@),
            final(self).backend() == resolved(
                recommended(final(self).vocabulary().len()),
                final(self).vocabulary(),
            ),
            final(self).known() == old(self).known().union(learnable(word@)),
            final(self).noise() == old(self).noise(),
            final(self).cache() == old(self).cache(),
            final(self).cache_limit() == old(self).cache_limit(),
    {
        let current = self.engine.get_patterns();
        let mut patterns: Vec<String> = Vec::new();
        let mut i: usize = 0;
        while i < current.len()
            invariant
                i <= current.len(),
                patterns@.len() == i,
                forall|j: int| 0 <= j < i ==> patterns@[j]@ == current@[j]@,
            decreases current.len() - i,
        {
            patterns.push(current[i].clone());
            i += 1;
        }
        patterns.push(word.to_owned());
        assert(views(patterns@) =~= views(current@).push(word@));
        self.engine.rebuild(patterns.as_slice());
        self.variant_detector.add_word(word);
    }

    /// Adds terms to the vocabulary, rebuilds the engine and lets the
    /// evasion detector learn them. The cache is left alone.
    pub fn add_words(&mut self, words: &[&str])
        ensures
            final(self).vocabulary() == old(self).vocabulary() + str_views(words@),
            final(self).backend() == resolved(
                recommended(final(self).vocabulary().len()),
                final(self).vocabulary(),
            ),
            final(self).known() == learnt(old(self).known(), str_views(words@), words@.len() as int),
            final(self).noise() == old(self).noise(),
            final(self).cache() == old(self).cache(),
            final(self).cache_limit() == old(self).cache_limit(),
    {
        let current = self.engine.get_patterns();
        let mut patterns: Vec<String> = Vec::new();
        let mut i: usize = 0;
        while i < current.len()
            invariant
                i <= current.len(),
                patterns@.len() == i,
                forall|j: int| 0 <= j < i ==> patterns@[j]@ == current@[j]@,
            decreases current.len() - i,
        {
            patterns.push(current[i].clone());
            i += 1;
        }
        let ghost base = current@.len();
        let mut k: usize = 0;
        while k < words.len()
            invariant
                k <= words.len(),
                base == current@.len(),
                patterns@.len() == base + k,
                forall|j: int| 0 <= j < base ==> patterns@[j]@ == current@[j]@,
                forall|j: int| 0 <= j < k ==> patterns@[base + j]@ == words@[j]@,
            decreases words.len() - k,
        {
            patterns.push(words[k].to_owned());
            k += 1;
        }
        assert(views(patterns@) =~= views(current@) + str_views(words@));
        self.engine.rebuild(patterns.as_slice());
        let mut n: usize = 0;
        while n < words.len()
            invariant
                n <= words.len(),
                self.vocabulary() == old(self).vocabulary() + str_views(words@),
                self.backend() == resolved(recommended(self.vocabulary().len()), self.vocabulary()),
                self.known() == learnt(old(self).known(), str_views(words@), n as int),
                self.noise() == old(self).noise(),
                self.cache() == old(self).cache(),
                self.cache_limit() == old(self).cache_limit(),
            decreases words.len() - n,
        {
            self.variant_detector.add_word(words[n]);
            n += 1;
        }
    }

    /// The back end in force.
    pub fn current_algorithm(&self) -> (a: MatchAlgorithm)
        ensures
            a == self.backend(),
    {
        self.engine.current_algorithm()
    }

    /// Removes every copy of a term from the vocabulary and rebuilds the
    /// engine. What the evasion detector has learnt stays.
    pub fn del_word(&mut self, word: &str)
        ensures
            final(self).vocabulary() == without_word(old(self).vocabulary(), word@),
            final(self).backend() == resolved(
                recommended(final(self).vocabulary().len()),
                final(self).vocabulary(),
            ),
            final(self).known() == old(self).known(),
            final(self).noise() == old(self).noise(),
            final(self).cache() == old(self).cache(),
            final(self).cache_limit() == old(self).cache_limit(),
    {
        let current = self.engine.get_patterns();
        let target = to_chars(word);
        let ghost cv = views(current@);
        let mut patterns: Vec<String> = Vec::new();
        let mut i: usize = 0;
        assert(views(patterns@) =~= without_word(cv.take(0), word@));
        while i < current.len()
            invariant
                i <= current.len(),
                cv == views(current@),
                target@ == word@,
                views(patterns@) == without_word(cv.take(i as int), word@),
            decreases current.len() - i,
        {
            let chars = to_chars(current[i].as_str());
            proof {
                assert(cv.take(i + 1).drop_last() == cv.take(i as int));
                assert(cv.take(i + 1).last() == current@[i as int]@);
            }
            if !same(&chars, &target) {
                let ghost before = views(patterns@);
                patterns.push(current[i].clone());
                assert(views(patterns@) =~= before.push(current@[i as int]@));
            }
            i += 1;
        }
        assert(cv.take(current.len() as int) == cv);
        self.engine.rebuild(patterns.as_slice());
    }

    /// Removes every copy of each of the terms from the vocabulary and
    /// rebuilds the engine. What the evasion detector has learnt stays.
    pub fn del_words(&mut self, words: &[&str])
        ensures
            final(self).vocabulary() == without_words(old(self).vocabulary(), str_views(words@)),
            final(self).backend() == resolved(
                recommended(final(self).vocabulary().len()),
                final(self).vocabulary(),
            ),
            final(self).known() == old(self).known(),
            final(self).noise() == old(self).noise(),
            final(self).cache() == old(self).cache(),
            final(self).cache_limit() == old(self).cache_limit(),
    {
        let current = self.engine.get_patterns();
        let ghost cv = views(current@);
        let ghost wv = str_views(words@);
        let mut targets: Vec<Vec<char>> = Vec::new();
        let mut k: usize = 0;
        while k < words.len()
            invariant
                k <= words.len(),
                targets@.len() == k,
                forall|j: int| 0 <= j < k ==> targets@[j]@ == words@[j]@,
            decreases words.len() - k,
        {
            targets.push(to_chars(words[k]));
            k += 1;
        }
        let mut patterns: Vec<String> = Vec::new();
        let mut i: usize = 0;
        assert(views(patterns@) =~= without_words(cv.take(0), wv));
        while i < current.len()
            invariant
                i <= current.len(),
                cv == views(current@),
                wv == str_views(words@),
                targets@.len() == words@.len(),
                forall|j: int| 0 <= j < targets@.len() ==> targets@[j]@ == words@[j]@,
                views(patterns@) == without_words(cv.take(i as int), wv),
            decreases current.len() - i,
        {
            let chars = to_chars(current[i].as_str());
            proof {
                assert(cv.take(i + 1).drop_last() == cv.take(i as int));
                assert(cv.take(i + 1).last() == current@[i as int]@);
            }
            let mut listed = false;
            let mut t: usize = 0;
            while t < targets.len() && !listed
                invariant
                    t <= targets@.len(),
                    targets@.len() == words@.len(),
                    wv == str_views(words@),
                    forall|j: int| 0 <= j < targets@.len() ==> targets@[j]@ == words@[j]@,
                    listed ==> wv.contains(chars@),
                    !listed ==> forall|j: int| 0 <= j < t ==> wv[j] != chars@,
                decreases targets.len() - t,
            {
                if same(&chars, &targets[t]) {
                    listed = true;
                    assert(wv[t as int] == chars@);
                }
                t += 1;
            }
            if !listed {
                let ghost before = views(patterns@);
                patterns.push(current[i].clone());
                assert(views(patterns@) =~= before.push(current@[i as int]@));
            }
            i += 1;
        }
        assert(cv.take(current.len() as int) == cv);
        self.engine.rebuild(patterns.as_slice());
    }
}

impl Filter {
    /// Strips the noise from `text`.
    pub fn remove_noise(&self, text: &str) -> (r: String)
        ensures
            r@ == stripped(self.noise(), text@),
    {
        match &self.noise {
            Some(noise) => noise.strip(text),
            None => text.to_owned(),
        }
    }

    /// The noise expression, if the filter has one.
    pub fn get_noise_pattern(&self) -> (r: Option<&Regex>)
        ensures
            match r {
                Some(re) => self.noise() == Some(regex_source(*re)),
                None => self.noise() is None,
            },
    {
        match &self.noise {
            Some(noise) => Some(&noise.expression),
            None => None,
        }
    }

    /// Finds the first term in `text`: the engine's first match in the
    /// stripped text or, failing that, the least of the terms detected in
    /// disguise.
    pub fn find_in(&self, text: &str) -> (r: (bool, String))
        ensures
            (r.0, r.1@) == find_in_result(
                self.backend(),
                self.vocabulary(),
                self.known(),
                stripped(self.noise(), text@),
            ),
    {
        let clean_text = self.remove_noise(text);
        self.find_in_clean(clean_text.as_str())
    }

    /// Finds the first term in a text that is already stripped of noise.
    pub fn find_in_clean(&self, clean: &str) -> (r: (bool, String))
        ensures
            (r.0, r.1@) == find_in_result(self.backend(), self.vocabulary(), self.known(), clean@),
    {
        match self.engine.find_first(clean) {
            Some(word) => (true, word),
            None => {
                let patterns = as_strs(self.engine.get_patterns());
                let variants = self.variant_detector.detect(clean, patterns.as_slice());
                if variants.len() > 0 {
                    assert(str_views(variants@)[0] == variants@[0]@);
                    (true, variants[0].to_owned())
                } else {
                    (false, String::new())
                }
            },
        }
    }

    /// Finds the first term in `text`, as [`Filter::find_in`] does.
    pub fn validate(&self, text: &str) -> (r: (bool, String))
        ensures
            (r.0, r.1@) == find_in_result(
                self.backend(),
                self.vocabulary(),
                self.known(),
                stripped(self.noise(), text@),
            ),
    {
        self.find_in(text)
    }

    /// The terms that replacing and removing work through for the stripped
    /// text `clean`.
    fn terms(&self, clean: &str) -> (r: Vec<Vec<char>>)
        ensures
            rows(r@) == terms_for(self.vocabulary(), self.known(), clean@),
    {
        let patterns = as_strs(self.engine.get_patterns());
        let variants = self.variant_detector.detect(clean, patterns.as_slice());
        let mut all = clone_strings(self.engine.get_patterns());
        append_strs(&mut all, &variants);
        let sorted = sort_longest_first(all.as_slice());
        let ghost sv = views(sorted@);
        let mut out: Vec<Vec<char>> = Vec::new();
        let mut i: usize = 0;
        while i < sorted.len()
            invariant
                i <= sorted.len(),
                sv == views(sorted@),
                rows(out@) == sv.take(i as int),
            decreases sorted.len() - i,
        {
            let ghost before = rows(out@);
            out.push(to_chars(sorted[i].as_str()));
            i += 1;
            assert(rows(out@) =~= before.push(sv[i - 1]));
            assert(sv.take(i as int) =~= sv.take(i - 1).push(sv[i - 1]));
        }
        assert(sv.take(sorted.len() as int) == sv);
        out
    }

    /// Masks every term in the stripped text: the vocabulary and the terms
    /// detected in disguise, longest term first. Each occurrence gives way
    /// to as many copies of `replacement` as the term has characters, so the
    /// outcome has as many characters as the stripped text.
    pub fn replace(&self, text: &str, replacement: char) -> (r: String)
        ensures
            r@ == masked(
                self.vocabulary(),
                self.known(),
                stripped(self.noise(), text@),
                replacement,
            ),
            r@.len() == stripped(self.noise(), text@).len(),
            forall|p: int|
                0 <= p < r@.len() ==> #[trigger] r@[p] == stripped(self.noise(), text@)[p] || r@[p]
                    == replacement,
    {
        let clean_text = self.remove_noise(text);
        self.mask_terms(clean_text.as_str(), replacement)
    }

    /// Masks every term in a text that is already stripped of noise.
    pub fn mask_terms(&self, clean: &str, replacement: char) -> (r: String)
        ensures
            r@ == masked(self.vocabulary(), self.known(), clean@, replacement),
            r@.len() == clean@.len(),
            forall|p: int| 0 <= p < r@.len() ==> #[trigger] r@[p] == clean@[p] || r@[p] == replacement,
    {
        let terms = self.terms(clean);
        let ghost tv = rows(terms@);
        let mut result = to_chars(clean);
        let mut i: usize = 0;
        while i < terms.len()
            invariant
                i <= terms.len(),
                tv == rows(terms@),
                result@ == mask_each(clean@, tv, replacement, i as int),
            decreases terms.len() - i,
        {
            let term = &terms[i];
            assert(tv[i as int] == term@);
            let fill = repeat(replacement, term.len());
            result = replace_chars(&result, term, &fill);
            i += 1;
        }
        proof {
            lemma_mask_keeps_places(clean@, tv, replacement, tv.len() as int);
        }
        from_chars(&result)
    }

    /// Removes every term from the stripped text: the vocabulary and the
    /// terms detected in disguise, longest term first.
    pub fn filter(&self, text: &str) -> (r: String)
        ensures
            r@ == filtered(self.vocabulary(), self.known(), stripped(self.noise(), text@)),
    {
        let clean_text = self.remove_noise(text);
        self.remove_terms(clean_text.as_str())
    }

    /// Removes every term from a text that is already stripped of noise.
    pub fn remove_terms(&self, clean: &str) -> (r: String)
        ensures
            r@ == filtered(self.vocabulary(), self.known(), clean@),
    {
        let terms = self.terms(clean);
        let ghost tv = rows(terms@);
        let nothing: Vec<char> = Vec::new();
        let mut result = to_chars(clean);
        let mut i: usize = 0;
        while i < terms.len()
            invariant
                i <= terms.len(),
                tv == rows(terms@),
                nothing@ == Seq::<char>::empty(),
                result@ == remove_each(clean@, tv, i as int),
            decreases terms.len() - i,
        {
            let term = &terms[i];
            assert(tv[i as int] == term@);
            result = replace_chars(&result, term, &nothing);
            i += 1;
        }
        from_chars(&result)
    }
}

impl Filter {
    /// `text` is found in the stripped form `clean`, and `found` is what a
    /// scan of it reports: a whole scan up to the chunking threshold, a
    /// chunked scan with some number of workers beyond.
    pub open spec fn scanned(&self, clean: Seq<char>, found: Seq<Seq<char>>) -> bool {
        if byte_len(clean) > chunking_threshold() {
            exists|workers: nat|
                workers > 0 && found == #[trigger] found_chunked(
                    self.backend(),
                    self.vocabulary(),
                    self.known(),
                    clean,
                    workers,
                )
        } else {
            found == found_whole(self.backend(), self.vocabulary(), self.known(), clean)
        }
    }

    /// What [`Filter::find_all`] guarantees: a cached result is handed out
    /// and marked as used; otherwise the stripped text is scanned and the
    /// outcome is cached. Nothing else changes.
    pub open spec fn find_all_post(&self, after: Filter, text: Seq<char>, found: Seq<Seq<char>>) -> bool {
        let clean = stripped(self.noise(), text);
        &&& after.vocabulary() == self.vocabulary()
        &&& after.backend() == self.backend()
        &&& after.known() == self.known()
        &&& after.noise() == self.noise()
        &&& after.cache_limit() == self.cache_limit()
        &&& match cached(self.cache(), clean) {
            Some(v) => found == v && after.cache() == after_get(self.cache(), clean),
            None => self.scanned(clean, found) && after.cache() == after_put(
                self.cache(),
                self.cache_limit(),
                clean,
                found,
            ),
        }
    }

    /// Finds all terms in `text`: the engine's matches and the terms
    /// detected in disguise, each once, ascending. Results are cached by
    /// stripped text.
    pub fn find_all(&mut self, text: &str) -> (r: Vec<String>)
        ensures
            old(self).find_all_post(*final(self), text@, views(r@)),
    {
        let clean_text = self.remove_noise(text);
        match self.check_cache(clean_text.as_str()) {
            Some(hit) => {
                return hit;
            },
            None => {},
        }
        assert(self.cache() == old(self).cache());
        assert(self.vocabulary() == old(self).vocabulary());
        assert(self.backend() == old(self).backend());
        assert(self.known() == old(self).known());
        let results = if byte_length(clean_text.as_str()) > 1000 {
            let found = self.find_all_parallel(clean_text.as_str());
            proof {
                let workers = choose|workers: nat|
                    workers > 0 && views(found@) == #[trigger] found_chunked(
                        self.backend(),
                        self.vocabulary(),
                        self.known(),
                        clean_text@,
                        workers,
                    );
                assert(workers > 0 && views(found@) == found_chunked(
                    old(self).backend(),
                    old(self).vocabulary(),
                    old(self).known(),
                    clean_text@,
                    workers,
                ));
            }
            found
        } else {
            self.find_all_sequential(clean_text.as_str())
        };
        assert(old(self).scanned(clean_text@, views(results@)));
        self.cache_result(clean_text, results.as_slice());
        results
    }

    /// Looks the stripped text up in the cache and marks a hit as used.
    fn check_cache(&mut self, text: &str) -> (r: Option<Vec<String>>)
        ensures
            match r {
                Some(v) => cached(old(self).cache(), text@) == Some(views(v@)),
                None => cached(old(self).cache(), text@) is None,
            },
            final(self).cache() == after_get(old(self).cache(), text@),
            final(self).cache_limit() == old(self).cache_limit(),
            final(self).vocabulary() == old(self).vocabulary(),
            final(self).backend() == old(self).backend(),
            final(self).known() == old(self).known(),
            final(self).noise() == old(self).noise(),
    {
        cache_get(&mut self.cache, text)
    }

    /// Stores what was found in the stripped text in the cache.
    fn cache_result(&mut self, text: String, results: &[String])
        ensures
            final(self).cache() == after_put(
                old(self).cache(),
                old(self).cache_limit(),
                text@,
                views(results@),
            ),
            final(self).cache_limit() == old(self).cache_limit(),
            final(self).vocabulary() == old(self).vocabulary(),
            final(self).backend() == old(self).backend(),
            final(self).known() == old(self).known(),
            final(self).noise() == old(self).noise(),
    {
        cache_put(&mut self.cache, text, clone_strings(results));
    }

    /// Scans the stripped text in chunks, with as many workers as the thread
    /// pool has.
    fn find_all_parallel(&self, text: &str) -> (r: Vec<String>)
        ensures
            exists|workers: nat|
                workers > 0 && views(r@) == #[trigger] found_chunked(
                    self.backend(),
                    self.vocabulary(),
                    self.known(),
                    text@,
                    workers,
                ),
    {
        let n = worker_count();
        let workers = if n == 0 {
            1
        } else {
            n
        };
        let r = self.find_all_chunked(text, workers);
        assert(views(r@) == found_chunked(
            self.backend(),
            self.vocabulary(),
            self.known(),
            text@,
            workers as nat,
        ));
        r
    }

    /// Scans the stripped text `text` in chunks sized for `workers`
    /// workers: the engine looks at each chunk, the evasion detector at each
    /// whitespace-delimited segment.
    pub fn find_all_chunked(&self, text: &str, workers: usize) -> (r: Vec<String>)
        requires
            workers > 0,
        ensures
            views(r@) == found_chunked(
                self.backend(),
                self.vocabulary(),
                self.known(),
                text@,
                workers as nat,
            ),
    {
        let share = byte_length(text) / workers;
        let chunk_size = if share > 100 {
            share
        } else {
            100
        };
        let chars = to_chars(text);
        let chunks = split_chunks(&chars, chunk_size);
        let patterns = as_strs(self.engine.get_patterns());
        let ghost cv = rows(chunks@);
        let mut results: Vec<String> = Vec::new();
        let mut i: usize = 0;
        assert(views(results@) =~= chunk_hits(self.backend(), self.vocabulary(), cv, 0));
        while i < chunks.len()
            invariant
                i <= chunks.len(),
                cv == rows(chunks@),
                views(results@) == chunk_hits(self.backend(), self.vocabulary(), cv, i as int),
            decreases chunks.len() - i,
        {
            let chunk_text = from_chars(&chunks[i]);
            assert(cv[i as int] == chunk_text@);
            let found = self.engine.find_all(chunk_text.as_str());
            append_strings(&mut results, found);
            i += 1;
        }
        let segments = split_words(&chars);
        let ghost sv = rows(segments@);
        let ghost engine_part = views(results@);
        let mut k: usize = 0;
        assert(views(results@) =~= engine_part + segment_hits(
            self.known(),
            self.vocabulary(),
            sv,
            0,
        ));
        while k < segments.len()
            invariant
                k <= segments.len(),
                sv == rows(segments@),
                str_views(patterns@) == self.vocabulary(),
                views(results@) == engine_part + segment_hits(
                    self.known(),
                    self.vocabulary(),
                    sv,
                    k as int,
                ),
            decreases segments.len() - k,
        {
            let segment = from_chars(&segments[k]);
            assert(sv[k as int] == segment@);
            let variants = self.variant_detector.detect(segment.as_str(), patterns.as_slice());
            let ghost before = views(results@);
            append_strs(&mut results, &variants);
            k += 1;
            assert(views(results@) =~= engine_part + segment_hits(
                self.known(),
                self.vocabulary(),
                sv,
                k as int,
            ));
        }
        self.deduplicate_and_sort(results)
    }

    /// Scans the whole stripped text `text` at once.
    pub fn find_all_sequential(&self, text: &str) -> (r: Vec<String>)
        ensures
            views(r@) == found_whole(self.backend(), self.vocabulary(), self.known(), text@),
    {
        let mut results = self.engine.find_all(text);
        let patterns = as_strs(self.engine.get_patterns());
        let variants = self.variant_detector.detect(text, patterns.as_slice());
        append_strs(&mut results, &variants);
        self.deduplicate_and_sort(results)
    }

    /// The distinct strings of `results`, ascending.
    fn deduplicate_and_sort(&self, results: Vec<String>) -> (r: Vec<String>)
        ensures
            views(r@) == sorted_set(views(results@)),
    {
        sort_dedup_strings(&results)
    }

    /// Finds all terms by longest-first matching: a term that occurs claims
    /// its text, which is blanked out before shorter terms are tried; the
    /// evasion detector then looks at what is left.
    pub fn find_all_layered(&self, text: &str) -> (r: Vec<String>)
        ensures
            views(r@) == found_layered(
                self.vocabulary(),
                self.known(),
                stripped(self.noise(), text@),
            ),
    {
        let clean_text = self.remove_noise(text);
        self.find_layered_clean(clean_text.as_str())
    }

    /// Finds all terms by longest-first matching in a text that is already
    /// stripped of noise.
    pub fn find_layered_clean(&self, clean: &str) -> (r: Vec<String>)
        ensures
            views(r@) == found_layered(self.vocabulary(), self.known(), clean@),
    {
        let sorted_patterns = sort_longest_first(self.engine.get_patterns());
        let ghost sorted = views(sorted_patterns@);
        let mut results: Vec<String> = Vec::new();
        let mut remaining = to_chars(clean);
        let blank: Vec<char> = vec![' '];
        assert(blank@ =~= seq![' ']);
        let mut i: usize = 0;
        assert(views(results@) =~= layered_hits(clean@, sorted, 0));
        while i < sorted_patterns.len()
            invariant
                i <= sorted_patterns.len(),
                sorted == views(sorted_patterns@),
                blank@ == seq![' '],
                remaining@ == layered_rest(clean@, sorted, i as int),
                views(results@) == layered_hits(clean@, sorted, i as int),
            decreases sorted_patterns.len() - i,
        {
            let pattern = to_chars(sorted_patterns[i].as_str());
            assert(sorted[i as int] == pattern@);
            if pattern.len() > 0 && contains(&remaining, &pattern) {
                let ghost before = views(results@);
                results.push(sorted_patterns[i].clone());
                assert(views(results@) =~= before.push(sorted[i as int]));
                remaining = replace_chars(&remaining, &pattern, &blank);
            }
            i += 1;
        }
        let rest = from_chars(&remaining);
        let patterns = as_strs(sorted_patterns.as_slice());
        let variants = self.variant_detector.detect(rest.as_str(), patterns.as_slice());
        append_strs(&mut results, &variants);
        self.deduplicate_and_sort(results)
    }
}

/// Appends owned copies of `more` to `out`.
fn append_strs(out: &mut Vec<String>, more: &Vec<&str>)
    ensures
        views(final(out)@) == views(old(out)@) + str_views(more@),
{
    let ghost start = views(out@);
    let mut k: usize = 0;
    assert(views(out@) =~= start + str_views(more@).take(0));
    while k < more.len()
        invariant
            k <= more.len(),
            views(out@) == start + str_views(more@).take(k as int),
        decreases more.len() - k,
    {
        let ghost before = views(out@);
        out.push(more[k].to_owned());
        k += 1;
        assert(views(out@) =~= before.push(more@[k - 1]@));
        assert(str_views(more@).take(k as int) =~= str_views(more@).take(k - 1).push(
            more@[k - 1]@,
        ));
    }
    assert(str_views(more@).take(more.len() as int) == str_views(more@));
}

/// Moves the strings of `more` to the end of `out`.
fn append_strings(out: &mut Vec<String>, more: Vec<String>)
    ensures
        views(final(out)@) == views(old(out)@) + views(more@),
{
    let ghost start = views(out@);
    let mut k: usize = 0;
    assert(views(out@) =~= start + views(more@).take(0));
    while k < more.len()
        invariant
            k <= more.len(),
            views(out@) == start + views(more@).take(k as int),
        decreases more.len() - k,
    {
        let ghost before = views(out@);
        out.push(more[k].clone());
        k += 1;
        assert(views(out@) =~= before.push(more@[k - 1]@));
        assert(views(more@).take(k as int) =~= views(more@).take(k - 1).push(more@[k - 1]@));
    }
    assert(views(more@).take(more.len() as int) == views(more@));
}

impl Filter {
    /// `states` is the course a filter takes through [`Filter::find_all`]
    /// on each of `texts` in turn, and `found` holds what each call
    /// reported.
    pub open spec fn batch_course(
        states: Seq<Filter>,
        texts: Seq<Seq<char>>,
        found: Seq<Seq<Seq<char>>>,
    ) -> bool {
        &&& states.len() == texts.len() + 1
        &&& found.len() == texts.len()
        &&& forall|i: int|
            0 <= i < texts.len() ==> (#[trigger] states[i]).find_all_post(
                states[i + 1],
                texts[i],
                found[i],
            )
    }

    /// Finds all terms in each of `texts`, as [`Filter::find_all`] does,
    /// one text after the other.
    pub fn find_all_batch(&mut self, texts: &[&str]) -> (r: Vec<Vec<String>>)
        ensures
            exists|states: Seq<Filter>|
                #[trigger] Self::batch_course(states, str_views(texts@), list_views(r@))
                    && states[0] == *old(self) && states[texts@.len() as int] == *final(self),
    {
        let ghost tv = str_views(texts@);
        let ghost mut states: Seq<Filter> = seq![*self];
        let mut out: Vec<Vec<String>> = Vec::new();
        let mut i: usize = 0;
        while i < texts.len()
            invariant
                i <= texts.len(),
                tv == str_views(texts@),
                out@.len() == i,
                states.len() == i + 1,
                states[0] == *old(self),
                states[i as int] == *self,
                forall|j: int|
                    0 <= j < i ==> (#[trigger] states[j]).find_all_post(
                        states[j + 1],
                        tv[j],
                        list_views(out@)[j],
                    ),
            decreases texts.len() - i,
        {
            let ghost before = states;
            let ghost found_before = list_views(out@);
            let found = self.find_all(texts[i]);
            out.push(found);
            proof {
                states = states.push(*self);
                assert forall|j: int| 0 <= j < i + 1 implies (#[trigger] states[j]).find_all_post(
                    states[j + 1],
                    tv[j],
                    list_views(out@)[j],
                ) by {
                    if j < i {
                        assert(states[j] == before[j]);
                        assert(states[j + 1] == before[j + 1]);
                        assert(list_views(out@)[j] == found_before[j]);
                    }
                }
            }
            i += 1;
        }
        assert(Self::batch_course(states, tv, list_views(out@)));
        out
    }

    /// Finds all terms in each of `lines`, as [`Filter::find_all`] does,
    /// one line after the other, and reports what was found in any of them,
    /// each term once, ascending.
    pub fn find_all_streaming(&mut self, lines: &[String]) -> (r: Vec<String>)
        ensures
            exists|states: Seq<Filter>, found: Seq<Seq<Seq<char>>>|
                #[trigger] Self::batch_course(states, views(lines@), found) && states[0] == *old(
                    self,
                ) && states[lines@.len() as int] == *final(self) && views(r@) == sorted_set(
                    found.flatten(),
                ),
    {
        let ghost lv = views(lines@);
        let ghost mut states: Seq<Filter> = seq![*self];
        let ghost mut found_all: Seq<Seq<Seq<char>>> = Seq::empty();
        let mut all_results: Vec<String> = Vec::new();
        let mut i: usize = 0;
        assert(views(all_results@) =~= found_all.flatten());
        while i < lines.len()
            invariant
                i <= lines.len(),
                lv == views(lines@),
                found_all.len() == i,
                states.len() == i + 1,
                states[0] == *old(self),
                states[i as int] == *self,
                views(all_results@) == found_all.flatten(),
                forall|j: int|
                    0 <= j < i ==> (#[trigger] states[j]).find_all_post(
                        states[j + 1],
                        lv[j],
                        found_all[j],
                    ),
            decreases lines.len() - i,
        {
            let ghost before = states;
            let ghost found_before = found_all;
            let found = self.find_all(lines[i].as_str());
            proof {
                states = states.push(*self);
                found_all = found_all.push(views(found@));
                assert forall|j: int| 0 <= j < i + 1 implies (#[trigger] states[j]).find_all_post(
                    states[j + 1],
                    lv[j],
                    found_all[j],
                ) by {
                    if j < i {
                        assert(states[j] == before[j]);
                        assert(states[j + 1] == before[j + 1]);
                        assert(found_all[j] == found_before[j]);
                    }
                }
                found_before.lemma_flatten_push(views(found@));
            }
            append_strings(&mut all_results, found);
            i += 1;
        }
        let r = self.deduplicate_and_sort(all_results);
        assert(Self::batch_course(states, lv, found_all));
        r
    }

    /// Adds the terms of a word list to the vocabulary: one term a line,
    /// empty lines skipped.
    pub fn load(&mut self, content: &str)
        ensures
            final(self).vocabulary() == old(self).vocabulary() + listed_words(lines_of(content@)),
            final(self).backend() == resolved(
                recommended(final(self).vocabulary().len()),
                final(self).vocabulary(),
            ),
            final(self).known() == learnt(
                old(self).known(),
                listed_words(lines_of(content@)),
                listed_words(lines_of(content@)).len() as int,
            ),
            final(self).noise() == old(self).noise(),
            final(self).cache() == old(self).cache(),
            final(self).cache_limit() == old(self).cache_limit(),
    {
        let chars = to_chars(content);
        let lines = split_lines(&chars);
        let ghost lv = rows(lines@);
        let mut words: Vec<String> = Vec::new();
        let mut i: usize = 0;
        assert(views(words@) =~= listed_words(lv.take(0)));
        while i < lines.len()
            invariant
                i <= lines.len(),
                lv == rows(lines@),
                views(words@) == listed_words(lv.take(i as int)),
            decreases lines.len() - i,
        {
            proof {
                assert(lv.take(i + 1).drop_last() == lv.take(i as int));
                assert(lv.take(i + 1).last() == lines@[i as int]@);
            }
            if lines[i].len() > 0 {
                let ghost before = views(words@);
                words.push(from_chars(&lines[i]));
                assert(views(words@) =~= before.push(lines@[i as int]@));
            }
            i += 1;
        }
        assert(lv.take(lines.len() as int) == lv);
        let refs = as_strs(words.as_slice());
        self.add_words(refs.as_slice());
    }
}

/// The character sequences of a list of lists of strings.
pub open spec fn list_views(v: Seq<Vec<String>>) -> Seq<Seq<Seq<char>>> {
    Seq::new(v.len(), |i: int| views(v[i]@))
}

impl Default for Filter {
    fn default() -> (f: Self)
        ensures
            f.is_new(MatchAlgorithm::WuManber),
    {
        Self::new()
    }
}

} // verus!
