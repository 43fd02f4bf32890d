//! The evasion detector: recognises vocabulary terms that appear in a text
//! in phonetic (pinyin) spelling or with visually similar characters.

use vstd::prelude::*;
use std::collections::HashMap;
use pinyin::ToPinyin;
use crate::order::{
    is_sorted_set_of, lemma_sorted_set_exists, lemma_sorted_set_unique, sort_dedup_strs, sorted_set,
    str_views, strictly_sorted,
};
use crate::text::{append_chars, contains, contains_seq, to_chars};

verus! {

/// The plain pinyin of a character, if the character has one.
pub uninterp spec fn pinyin_plain(c: char) -> Option<Seq<char>>;

/// `ToPinyin::to_pinyin` looks the character up in the crate's table, and
/// `Pinyin::plain` gives the spelling without tone marks. The outcome
/// depends on the character alone.
#[verifier::external_body]
pub(crate) fn char_pinyin(c: char) -> (r: Option<String>)
    ensures
        match r {
            Some(s) => pinyin_plain(c) == Some(s@),
            None => pinyin_plain(c) is None,
        },
{
    match c.to_pinyin() {
        Some(p) => Some(p.plain().to_string()),
        None => None,
    }
}

/// The characters listed as visually similar to `c`.
pub open spec fn similar_to(c: char) -> Seq<char> {
    if c == '赌' {
        seq!['渧', '睹', '堵']
    } else if c == '博' {
        seq!['搏', '傅', '膊']
    } else if c == '有' {
        seq!['友', '右']
    } else if c == '色' {
        seq!['涩']
    } else if c == '情' {
        seq!['请', '清']
    } else {
        Seq::empty()
    }
}

/// The table of visually similar characters, as a list of rows.
pub open spec fn shape_table() -> Seq<(char, Seq<char>)> {
    seq![
        ('赌', similar_to('赌')),
        ('博', similar_to('博')),
        ('有', similar_to('有')),
        ('色', similar_to('色')),
        ('情', similar_to('情')),
    ]
}

/// `tc` can stand for the pattern character `wc`: it is that character or
/// one listed as similar to it.
pub open spec fn looks_like(wc: char, tc: char) -> bool {
    tc == wc || similar_to(wc).contains(tc)
}

/// The phonetic code a character of a text is read as: its pinyin, or the
/// character itself when it has none.
pub open spec fn text_code(c: char) -> Seq<char> {
    match pinyin_plain(c) {
        Some(p) => p,
        None => seq![c],
    }
}

/// The phonetic code a character of a pattern is read as: its pinyin when
/// the detector has learnt the character, else the character itself.
pub open spec fn word_code(known: Set<char>, c: char) -> Seq<char> {
    if known.contains(c) {
        text_code(c)
    } else {
        seq![c]
    }
}

/// The phonetic rendering of a text.
pub open spec fn text_pinyin(text: Seq<char>) -> Seq<char>
    decreases text.len(),
{
    if text.len() == 0 {
        Seq::empty()
    } else {
        text_pinyin(text.drop_last()) + text_code(text.last())
    }
}

/// The phonetic rendering of a pattern.
pub open spec fn word_pinyin(known: Set<char>, word: Seq<char>) -> Seq<char>
    decreases word.len(),
{
    if word.len() == 0 {
        Seq::empty()
    } else {
        word_pinyin(known, word.drop_last()) + word_code(known, word.last())
    }
}

/// `word` has characters and its phonetic rendering occurs in that of
/// `text`.
pub open spec fn is_pinyin_variant(known: Set<char>, text: Seq<char>, word: Seq<char>) -> bool {
    word.len() > 0 && contains_seq(text_pinyin(text), word_pinyin(known, word))
}

/// At index `i`, `text` holds as many characters as `word` has, each of
/// which can stand for the corresponding character of `word`.
pub open spec fn fuzzy_at(text: Seq<char>, word: Seq<char>, i: int) -> bool {
    &&& 0 <= i
    &&& i + word.len() <= text.len()
    &&& forall|j: int| 0 <= j < word.len() ==> looks_like(word[j], #[trigger] text[i + j])
}

/// `word` has characters and some stretch of `text` can stand for it,
/// character by character.
pub open spec fn is_shape_variant(text: Seq<char>, word: Seq<char>) -> bool {
    word.len() > 0 && exists|i: int| fuzzy_at(text, word, i)
}

/// `word` appears in `text` in disguise, phonetically or by similar shapes.
/// A word without characters never does.
pub open spec fn is_variant(known: Set<char>, text: Seq<char>, word: Seq<char>) -> bool {
    is_pinyin_variant(known, text, word) || is_shape_variant(text, word)
}

/// `r` lists, each once and ascending by code point, the words of `vocab`
/// that appear in `text` in disguise.
pub open spec fn is_disguised_list(
    r: Seq<Seq<char>>,
    known: Set<char>,
    text: Seq<char>,
    vocab: Seq<Seq<char>>,
) -> bool {
    &&& strictly_sorted(r)
    &&& forall|w: Seq<char>| #[trigger]
        r.contains(w) <==> (vocab.contains(w) && is_variant(known, text, w))
}

/// The words of `vocab` that appear in `text` in disguise, each once and
/// ascending by code point.
pub open spec fn disguised(known: Set<char>, text: Seq<char>, vocab: Seq<Seq<char>>) -> Seq<
    Seq<char>,
> {
    choose|r: Seq<Seq<char>>| is_disguised_list(r, known, text, vocab)
}

/// The list of the disguised words exists: it is what sorting the
/// disguised words of the vocabulary yields.
pub proof fn lemma_disguised_exists(known: Set<char>, text: Seq<char>, vocab: Seq<Seq<char>>)
    ensures
        is_disguised_list(disguised(known, text, vocab), known, text, vocab),
{
    let hits = hits_among(known, text, vocab, vocab.len() as int);
    lemma_hits_among(known, text, vocab, vocab.len() as int);
    lemma_sorted_set_exists(hits);
    let r = sorted_set(hits);
    assert(vocab.take(vocab.len() as int) == vocab);
    assert(is_disguised_list(r, known, text, vocab)) by {
        assert forall|w: Seq<char>| #[trigger]
            r.contains(w) <==> (vocab.contains(w) && is_variant(known, text, w)) by {
            assert(r.contains(w) <==> hits.contains(w));
        }
    }
}

/// The disguised words among the first `n` of `vocab`, in vocabulary order.
pub open spec fn hits_among(
    known: Set<char>,
    text: Seq<char>,
    vocab: Seq<Seq<char>>,
    n: int,
) -> Seq<Seq<char>>
    decreases n,
{
    if n <= 0 {
        Seq::empty()
    } else if is_variant(known, text, vocab[n - 1]) {
        hits_among(known, text, vocab, n - 1).push(vocab[n - 1])
    } else {
        hits_among(known, text, vocab, n - 1)
    }
}

proof fn lemma_hits_among(known: Set<char>, text: Seq<char>, vocab: Seq<Seq<char>>, n: int)
    requires
        0 <= n <= vocab.len(),
    ensures
        forall|w: Seq<char>| #[trigger]
            hits_among(known, text, vocab, n).contains(w) <==> (vocab.take(n).contains(w)
                && is_variant(known, text, w)),
    decreases n,
{
    if n > 0 {
        lemma_hits_among(known, text, vocab, n - 1);
        let before = hits_among(known, text, vocab, n - 1);
        let after = hits_among(known, text, vocab, n);
        let hit = is_variant(known, text, vocab[n - 1]);
        let hits = Set::new(|w: Seq<char>| is_variant(known, text, w));
        assert forall|w: Seq<char>| #[trigger]
            before.contains(w) <==> (vocab.take(n - 1).contains(w) && hits.contains(w)) by {}
        lemma_extend(before, after, vocab, n - 1, hit, hits);
    } else {
        assert(vocab.take(0).len() == 0);
    }
}

/// There is only one list of the disguised words.
pub proof fn lemma_disguised(
    r: Seq<Seq<char>>,
    known: Set<char>,
    text: Seq<char>,
    vocab: Seq<Seq<char>>,
)
    requires
        is_disguised_list(r, known, text, vocab),
    ensures
        r == disguised(known, text, vocab),
{
    let d = disguised(known, text, vocab);
    assert(is_disguised_list(d, known, text, vocab));
    assert forall|w: Seq<char>| d.contains(w) <==> r.contains(w) by {
        assert(r.contains(w) <==> (vocab.contains(w) && is_variant(known, text, w)));
        assert(d.contains(w) <==> (vocab.contains(w) && is_variant(known, text, w)));
    }
    assert(is_sorted_set_of(r, r));
    assert(is_sorted_set_of(d, r));
    lemma_sorted_set_unique(r, d, r);
}

/// The characters of `word` that have a pinyin.
pub open spec fn learnable(word: Seq<char>) -> Set<char> {
    Set::new(|c: char| word.contains(c) && pinyin_plain(c) is Some)
}

/// Detector of disguised vocabulary terms.
pub struct VariantDetector {
    shape_map: Vec<(char, Vec<char>)>,
    char_to_pinyin: HashMap<u32, String>,
}

/// The rows of a shape table.
pub open spec fn shape_rows(v: Seq<(char, Vec<char>)>) -> Seq<(char, Seq<char>)> {
    Seq::new(v.len(), |i: int| (v[i].0, v[i].1@))
}

impl VariantDetector {
    #[verifier::type_invariant]
    spec fn inv(&self) -> bool {
        &&& shape_rows(self.shape_map@) == shape_table()
        &&& forall|k: u32| #[trigger]
            self.char_to_pinyin@.contains_key(k) ==> exists|c: char|
                c as u32 == k && pinyin_plain(c) == Some(self.char_to_pinyin@[k]@)
    }

    /// The characters whose pinyin the detector has learnt.
    pub closed spec fn known(&self) -> Set<char> {
        Set::new(|c: char| self.char_to_pinyin@.contains_key(c as u32))
    }

    /// Creates a detector that has learnt no character.
    pub fn new() -> (d: Self)
        ensures
            d.known() == Set::<char>::empty(),
    {
        let d = VariantDetector {
            shape_map: Self::build_shape_map(),
            char_to_pinyin: HashMap::new(),
        };
        assert(d.known() =~= Set::<char>::empty());
        d
    }

    /// The table of visually similar characters.
    fn build_shape_map() -> (m: Vec<(char, Vec<char>)>)
        ensures
            shape_rows(m@) == shape_table(),
    {
        let mut m: Vec<(char, Vec<char>)> = Vec::new();
        m.push(('赌', vec!['渧', '睹', '堵']));
        m.push(('博', vec!['搏', '傅', '膊']));
        m.push(('有', vec!['友', '右']));
        m.push(('色', vec!['涩']));
        m.push(('情', vec!['请', '清']));
        proof {
            assert(m@[0].1@ =~= similar_to('赌'));
            assert(m@[1].1@ =~= similar_to('博'));
            assert(m@[2].1@ =~= similar_to('有'));
            assert(m@[3].1@ =~= similar_to('色'));
            assert(m@[4].1@ =~= similar_to('情'));
            assert(shape_rows(m@) =~= shape_table());
        }
        m
    }
}

impl VariantDetector {
    /// Learns the pinyin of every character of `word` that has one.
    pub fn add_word(&mut self, word: &str)
        ensures
            final(self).known() == old(self).known().union(learnable(word@)),
    {
        proof {
            use_type_invariant(&*self);
        }
        let chars = to_chars(word);
        let mut codes: HashMap<u32, String> = HashMap::new();
        core::mem::swap(&mut self.char_to_pinyin, &mut codes);
        let ghost start = Set::new(|c: char| codes@.contains_key(c as u32));
        assert(start =~= old(self).known());
        let mut i: usize = 0;
        assert(start =~= start.union(learnable(chars@.take(0))));
        while i < chars.len()
            invariant
                i <= chars.len(),
                chars@ == word@,
                Set::new(|c: char| codes@.contains_key(c as u32)) == start.union(
                    learnable(chars@.take(i as int)),
                ),
                forall|k: u32| #[trigger]
                    codes@.contains_key(k) ==> exists|c: char|
                        c as u32 == k && pinyin_plain(c) == Some(codes@[k]@),
            decreases chars.len() - i,
        {
            let c = chars[i];
            let ghost before = Set::new(|x: char| codes@.contains_key(x as u32));
            proof {
                let prev = chars@.take(i as int);
                let next = chars@.take(i + 1);
                assert(next =~= prev.push(c));
                assert forall|x: char| next.contains(x) <==> (prev.contains(x) || x == c) by {
                    if prev.contains(x) {
                        let j = choose|j: int| 0 <= j < prev.len() && prev[j] == x;
                        assert(next[j] == x);
                    }
                    if x == c {
                        assert(next[i as int] == c);
                    }
                    if next.contains(x) {
                        let j = choose|j: int| 0 <= j < next.len() && next[j] == x;
                        if j < i {
                            assert(prev[j] == x);
                        }
                    }
                }
            }
            match char_pinyin(c) {
                Some(code) => {
                    let ghost old_codes = codes@;
                    codes.insert(c as u32, code);
                    proof {
                        let now = Set::new(|x: char| codes@.contains_key(x as u32));
                        assert forall|x: char| now.contains(x) <==> before.insert(c).contains(
                            x,
                        ) by {
                            lemma_key_injective(x, c);
                            assert(before.contains(x) == old_codes.contains_key(x as u32));
                        }
                        assert(now =~= before.insert(c));
                        assert forall|k: u32| #[trigger] codes@.contains_key(k) implies exists|
                            x: char,
                        |
                            x as u32 == k && pinyin_plain(x) == Some(codes@[k]@) by {
                            if k == c as u32 {
                                assert(c as u32 == k && pinyin_plain(c) == Some(codes@[k]@));
                            } else {
                                assert(old_codes.contains_key(k));
                            }
                        }
                    }
                    assert(learnable(chars@.take(i + 1)) =~= learnable(chars@.take(i as int)).insert(
                        c,
                    ));
                },
                None => {
                    assert(learnable(chars@.take(i + 1)) =~= learnable(chars@.take(i as int)));
                },
            }
            i += 1;
        }
        assert(chars@.take(chars.len() as int) == chars@);
        core::mem::swap(&mut self.char_to_pinyin, &mut codes);
    }

    /// The phonetic rendering of a text.
    fn text_to_pinyin(&self, text: &Vec<char>) -> (out: Vec<char>)
        ensures
            out@ == text_pinyin(text@),
    {
        proof {
            use_type_invariant(self);
        }
        let mut out: Vec<char> = Vec::new();
        let mut i: usize = 0;
        while i < text.len()
            invariant
                i <= text.len(),
                out@ == text_pinyin(text@.take(i as int)),
                forall|k: u32| #[trigger]
                    self.char_to_pinyin@.contains_key(k) ==> exists|c: char|
                        c as u32 == k && pinyin_plain(c) == Some(self.char_to_pinyin@[k]@),
            decreases text.len() - i,
        {
            let c = text[i];
            proof {
                assert(text@.take(i + 1).drop_last() == text@.take(i as int));
            }
            let key = c as u32;
            match self.char_to_pinyin.get(&key) {
                Some(code) => {
                    proof {
                        assert(self.char_to_pinyin@.contains_key(key));
                        let cw = choose|x: char|
                            x as u32 == key && pinyin_plain(x) == Some(self.char_to_pinyin@[key]@);
                        lemma_key_injective(cw, c);
                    }
                    let code_chars = to_chars(code.as_str());
                    append_chars(&mut out, &code_chars);
                },
                None => match char_pinyin(c) {
                    Some(code) => {
                        let code_chars = to_chars(code.as_str());
                        append_chars(&mut out, &code_chars);
                    },
                    None => {
                        out.push(c);
                        assert(out@ =~= text_pinyin(text@.take(i as int)) + seq![c]);
                    },
                },
            }
            i += 1;
        }
        assert(text@.take(text.len() as int) == text@);
        out
    }

    /// The phonetic rendering of a pattern.
    fn word_to_pinyin(&self, word: &Vec<char>) -> (out: Vec<char>)
        ensures
            out@ == word_pinyin(self.known(), word@),
    {
        proof {
            use_type_invariant(self);
        }
        let mut out: Vec<char> = Vec::new();
        let mut i: usize = 0;
        while i < word.len()
            invariant
                i <= word.len(),
                out@ == word_pinyin(self.known(), word@.take(i as int)),
                forall|k: u32| #[trigger]
                    self.char_to_pinyin@.contains_key(k) ==> exists|c: char|
                        c as u32 == k && pinyin_plain(c) == Some(self.char_to_pinyin@[k]@),
            decreases word.len() - i,
        {
            let c = word[i];
            proof {
                assert(word@.take(i + 1).drop_last() == word@.take(i as int));
            }
            let key = c as u32;
            match self.char_to_pinyin.get(&key) {
                Some(code) => {
                    proof {
                        assert(self.char_to_pinyin@.contains_key(key));
                        assert(self.known().contains(c));
                        let cw = choose|x: char|
                            x as u32 == key && pinyin_plain(x) == Some(self.char_to_pinyin@[key]@);
                        lemma_key_injective(cw, c);
                    }
                    let code_chars = to_chars(code.as_str());
                    append_chars(&mut out, &code_chars);
                },
                None => {
                    assert(!self.known().contains(c));
                    out.push(c);
                    assert(out@ =~= word_pinyin(self.known(), word@.take(i as int)) + seq![c]);
                },
            }
            i += 1;
        }
        assert(word@.take(word.len() as int) == word@);
        out
    }

    /// Whether `tc` can stand for the pattern character `wc`.
    fn can_stand_for(&self, wc: char, tc: char) -> (b: bool)
        ensures
            b == looks_like(wc, tc),
    {
        proof {
            use_type_invariant(self);
        }
        if tc == wc {
            return true;
        }
        assert(shape_table().len() == 5);
        assert(shape_rows(self.shape_map@).len() == self.shape_map@.len());
        let mut r: usize = 0;
        while r < self.shape_map.len()
            invariant
                r <= self.shape_map@.len(),
                self.shape_map@.len() == 5,
                shape_rows(self.shape_map@) == shape_table(),
                tc != wc,
                forall|q: int| 0 <= q < r ==> self.shape_map@[q].0 != wc,
            decreases self.shape_map.len() - r,
        {
            assert(shape_rows(self.shape_map@)[r as int] == shape_table()[r as int]);
            if self.shape_map[r].0 == wc {
                let list = &self.shape_map[r].1;
                assert(list@ == similar_to(wc));
                let mut k: usize = 0;
                while k < list.len()
                    invariant
                        k <= list.len(),
                        list@ == similar_to(wc),
                        tc != wc,
                        forall|q: int| 0 <= q < k ==> list@[q] != tc,
                    decreases list.len() - k,
                {
                    if list[k] == tc {
                        assert(list@[k as int] == tc);
                        assert(similar_to(wc).contains(tc));
                        return true;
                    }
                    k += 1;
                }
                assert(!list@.contains(tc));
                return false;
            }
            r += 1;
        }
        proof {
            assert(shape_rows(self.shape_map@)[0] == shape_table()[0]);
            assert(shape_rows(self.shape_map@)[1] == shape_table()[1]);
            assert(shape_rows(self.shape_map@)[2] == shape_table()[2]);
            assert(shape_rows(self.shape_map@)[3] == shape_table()[3]);
            assert(shape_rows(self.shape_map@)[4] == shape_table()[4]);
            assert(similar_to(wc) =~= Seq::empty());
        }
        false
    }

    /// Whether the characters of `text` from index `i` on can stand for
    /// `word`.
    fn stands_at(&self, text: &Vec<char>, word: &Vec<char>, i: usize) -> (b: bool)
        requires
            i + word.len() <= text.len(),
        ensures
            b == fuzzy_at(text@, word@, i as int),
    {
        let mut j: usize = 0;
        while j < word.len()
            invariant
                j <= word.len(),
                i + word.len() <= text.len(),
                forall|q: int| 0 <= q < j ==> looks_like(word@[q], #[trigger] text@[i + q]),
            decreases word.len() - j,
        {
            if !self.can_stand_for(word[j], text[i + j]) {
                assert(!looks_like(word@[j as int], text@[i + j]));
                return false;
            }
            j += 1;
        }
        true
    }

    /// Whether some stretch of `text` can stand for `word`.
    fn is_shape_variant(&self, text: &Vec<char>, word: &Vec<char>) -> (b: bool)
        ensures
            b == is_shape_variant(text@, word@),
    {
        if word.len() == 0 || word.len() > text.len() {
            return false;
        }
        let last = text.len() - word.len();
        let mut i: usize = 0;
        while i <= last
            invariant
                i <= last + 1,
                last == text.len() - word.len(),
                word@.len() > 0,
                forall|q: int| 0 <= q < i ==> !fuzzy_at(text@, word@, q),
            decreases last + 1 - i,
        {
            if self.stands_at(text, word, i) {
                return true;
            }
            if i == last {
                return false;
            }
            i += 1;
        }
        false
    }

    /// The words whose phonetic rendering occurs in that of the text.
    fn detect_pinyin_variants<'a>(&'a self, text: &Vec<char>, words: &[&'a str]) -> (r:
        Vec<&'a str>)
        ensures
            forall|w: Seq<char>| #[trigger]
                str_views(r@).contains(w) <==> (str_views(words@).contains(w)
                    && is_pinyin_variant(self.known(), text@, w)),
    {
        let text_code = self.text_to_pinyin(text);
        let mut out: Vec<&'a str> = Vec::new();
        let mut i: usize = 0;
        let ghost wv = str_views(words@);
        let ghost hits = Set::new(|w: Seq<char>| is_pinyin_variant(self.known(), text@, w));
        while i < words.len()
            invariant
                i <= words.len(),
                wv == str_views(words@),
                text_code@ == text_pinyin(text@),
                hits == Set::new(|w: Seq<char>| is_pinyin_variant(self.known(), text@, w)),
                forall|w: Seq<char>| #[trigger]
                    str_views(out@).contains(w) <==> (wv.take(i as int).contains(w)
                        && hits.contains(w)),
            decreases words.len() - i,
        {
            let word = words[i];
            let chars = to_chars(word);
            let code = self.word_to_pinyin(&chars);
            let hit = chars.len() > 0 && contains(&text_code, &code);
            let ghost before = str_views(out@);
            if hit {
                out.push(word);
                assert(str_views(out@) =~= before.push(word@));
            }
            proof {
                assert(wv[i as int] == word@);
                lemma_extend(
                    before,
                    str_views(out@),
                    wv,
                    i as int,
                    hit,
                    hits,
                );
            }
            i += 1;
        }
        assert(wv.take(words.len() as int) == wv);
        out
    }

    /// The words for which some stretch of the text can stand.
    fn detect_shape_variants<'a>(&'a self, text: &Vec<char>, words: &[&'a str]) -> (r:
        Vec<&'a str>)
        ensures
            forall|w: Seq<char>| #[trigger]
                str_views(r@).contains(w) <==> (str_views(words@).contains(w)
                    && is_shape_variant(text@, w)),
    {
        let mut out: Vec<&'a str> = Vec::new();
        let mut i: usize = 0;
        let ghost wv = str_views(words@);
        let ghost hits = Set::new(|w: Seq<char>| is_shape_variant(text@, w));
        while i < words.len()
            invariant
                i <= words.len(),
                wv == str_views(words@),
                hits == Set::new(|w: Seq<char>| is_shape_variant(text@, w)),
                forall|w: Seq<char>| #[trigger]
                    str_views(out@).contains(w) <==> (wv.take(i as int).contains(w)
                        && hits.contains(w)),
            decreases words.len() - i,
        {
            let word = words[i];
            let chars = to_chars(word);
            let hit = self.is_shape_variant(text, &chars);
            let ghost before = str_views(out@);
            if hit {
                out.push(word);
                assert(str_views(out@) =~= before.push(word@));
            }
            proof {
                assert(wv[i as int] == word@);
                lemma_extend(
                    before,
                    str_views(out@),
                    wv,
                    i as int,
                    hit,
                    hits,
                );
            }
            i += 1;
        }
        assert(wv.take(words.len() as int) == wv);
        out
    }

    /// Reports the words of `words` that appear in `text` in
    /// disguise: each once, ascending by code point.
    pub fn detect<'a>(&'a self, text: &str, words: &[&'a str]) -> (r: Vec<&'a str>)
        ensures
            strictly_sorted(str_views(r@)),
            forall|w: Seq<char>| #[trigger]
                str_views(r@).contains(w) <==> (str_views(words@).contains(w)
                    && is_variant(self.known(), text@, w)),
            str_views(r@) == disguised(self.known(), text@, str_views(words@)),
    {
        let chars = to_chars(text);
        let mut variants = self.detect_pinyin_variants(&chars, words);
        let by_shape = self.detect_shape_variants(&chars, words);
        let ghost first = str_views(variants@);
        let ghost second = str_views(by_shape@);
        let mut i: usize = 0;
        while i < by_shape.len()
            invariant
                i <= by_shape.len(),
                second == str_views(by_shape@),
                str_views(variants@) == first + second.take(i as int),
            decreases by_shape.len() - i,
        {
            let ghost before = str_views(variants@);
            variants.push(by_shape[i]);
            i += 1;
            assert(str_views(variants@) =~= before.push(second[i - 1]));
            assert(second.take(i as int) =~= second.take(i - 1).push(second[i - 1]));
            assert(str_views(variants@) =~= first + second.take(i as int));
        }
        assert(second.take(by_shape.len() as int) == second);
        let sorted = sort_dedup_strs(&variants);
        proof {
            assert forall|w: Seq<char>| (first + second).contains(w) <==> (first.contains(w)
                || second.contains(w)) by {
                if first.contains(w) {
                    let j = choose|j: int| 0 <= j < first.len() && first[j] == w;
                    assert((first + second)[j] == w);
                }
                if second.contains(w) {
                    let j = choose|j: int| 0 <= j < second.len() && second[j] == w;
                    assert((first + second)[first.len() + j] == w);
                }
                if (first + second).contains(w) {
                    let j = choose|j: int| 0 <= j < (first + second).len() && (first + second)[j]
                        == w;
                    if j < first.len() {
                        assert(first[j] == w);
                    } else {
                        assert(second[j - first.len()] == w);
                    }
                }
            }
            assert(str_views(variants@) == first + second);
            assert forall|w: Seq<char>| #[trigger]
                str_views(sorted@).contains(w) <==> (str_views(words@).contains(w)
                    && is_variant(self.known(), text@, w)) by {
                assert(str_views(sorted@).contains(w) <==> (first + second).contains(w));
                assert(first.contains(w) <==> (str_views(words@).contains(w)
                    && is_pinyin_variant(self.known(), text@, w)));
                assert(second.contains(w) <==> (str_views(words@).contains(w)
                    && is_shape_variant(text@, w)));
            }
            lemma_disguised(
                str_views(sorted@),
                self.known(),
                text@,
                str_views(words@),
            );
        }
        sorted
    }
}

impl Default for VariantDetector {
    fn default() -> (d: Self)
        ensures
            d.known() == Set::<char>::empty(),
    {
        Self::new()
    }
}

/// Different characters have different code points.
proof fn lemma_key_injective(a: char, b: char)
    ensures
        a as u32 == b as u32 <==> a == b,
{
}

/// Appending the word at index `i` exactly when it is a hit keeps the list
/// equal, as a set, to the hits among the words seen.
proof fn lemma_extend(
    before: Seq<Seq<char>>,
    after: Seq<Seq<char>>,
    words: Seq<Seq<char>>,
    i: int,
    hit: bool,
    hits: Set<Seq<char>>,
)
    requires
        0 <= i < words.len(),
        hit == hits.contains(words[i]),
        after == (if hit {
            before.push(words[i])
        } else {
            before
        }),
        forall|w: Seq<char>| #[trigger]
            before.contains(w) <==> (words.take(i).contains(w) && hits.contains(w)),
    ensures
        forall|w: Seq<char>| #[trigger]
            after.contains(w) <==> (words.take(i + 1).contains(w) && hits.contains(w)),
{
    let prev = words.take(i);
    let next = words.take(i + 1);
    assert(next =~= prev.push(words[i]));
    assert forall|w: Seq<char>| #[trigger]
        after.contains(w) <==> (next.contains(w) && hits.contains(w)) by {
        assert(before.contains(w) <==> (prev.contains(w) && hits.contains(w)));
        if after.contains(w) {
            let j = choose|j: int| 0 <= j < after.len() && after[j] == w;
            if hit && j == before.len() {
                assert(next[i] == w);
            } else {
                assert(before[j] == w);
                assert(before.contains(w));
                let k = choose|k: int| 0 <= k < prev.len() && prev[k] == w;
                assert(next[k] == w);
            }
        }
        if next.contains(w) && hits.contains(w) {
            let k = choose|k: int| 0 <= k < next.len() && next[k] == w;
            if k < i {
                assert(prev[k] == w);
                assert(prev.contains(w));
                assert(before.contains(w));
                let j = choose|j: int| 0 <= j < before.len() && before[j] == w;
                assert(after[j] == w);
            } else {
                assert(w == words[i]);
                assert(after[before.len() as int] == w);
            }
        }
    }
}

} // verus!
