//! Character-sequence primitives shared by every matcher.
//!
//! All matching in this crate is defined over sequences of Unicode scalar
//! values, never over raw bytes. This module holds the mathematical
//! vocabulary (occurrence, containment, replacement, whitespace
//! canonicalisation, UTF-8 byte offsets) together with executable
//! counterparts that are proved against it.

use vstd::prelude::*;

verus! {

/// The code points that carry the Unicode `White_Space` property.
pub open spec fn is_white_space(c: char) -> bool {
    let u = c as u32;
    (0x09 <= u <= 0x0D) || u == 0x20 || u == 0x85 || u == 0xA0 || u == 0x1680 || (0x2000 <= u
        <= 0x200A) || u == 0x2028 || u == 0x2029 || u == 0x202F || u == 0x205F || u == 0x3000
}

/// `char::is_whitespace` answers whether the character has the Unicode
/// `White_Space` property, that is, whether it is one of the code points
/// listed in [`is_white_space`].
pub assume_specification[ char::is_whitespace ](c: char) -> (b: bool)
    ensures
        b == is_white_space(c),
;

/// Number of bytes a character occupies in UTF-8.
pub open spec fn utf8_width(c: char) -> nat {
    let u = c as u32;
    if u < 0x80 {
        1
    } else if u < 0x800 {
        2
    } else if u < 0x10000 {
        3
    } else {
        4
    }
}

/// `char::len_utf8` returns the length of the character's UTF-8 encoding,
/// which is fixed by the code point's magnitude.
pub assume_specification[ char::len_utf8 ](c: char) -> (n: usize)
    ensures
        n == utf8_width(c),
;

/// Number of bytes a character sequence occupies in UTF-8.
pub open spec fn byte_len(s: Seq<char>) -> nat
    decreases s.len(),
{
    if s.len() == 0 {
        0
    } else {
        byte_len(s.drop_last()) + utf8_width(s.last())
    }
}

/// Byte offset at which the character with index `i` starts.
pub open spec fn byte_offset(s: Seq<char>, i: int) -> nat {
    byte_len(s.take(i))
}

/// The character index at or after `from` that starts at byte offset
/// `byte`, if `byte` is a character boundary there.
pub open spec fn char_index_at(text: Seq<char>, byte: int, from: int) -> Option<int>
    decreases text.len() + 1 - from,
{
    if from < 0 || from > text.len() {
        None
    } else if byte_offset(text, from) == byte {
        Some(from)
    } else {
        char_index_at(text, byte, from + 1)
    }
}

/// The characters between byte offsets `start` and `end`, if both are
/// character boundaries of `text` and `start` does not exceed `end`.
pub open spec fn byte_slice(text: Seq<char>, start: int, end: int) -> Option<Seq<char>> {
    match (char_index_at(text, start, 0), char_index_at(text, end, 0)) {
        (Some(i), Some(j)) => if i <= j {
            Some(text.subrange(i, j))
        } else {
            None
        },
        _ => None,
    }
}

/// Byte offset `byte` is where a character of `text` starts, or the end of
/// `text`.
pub open spec fn on_boundary(text: Seq<char>, byte: int) -> bool {
    exists|i: int| 0 <= i <= text.len() && #[trigger] byte_offset(text, i) == byte
}

/// `start` and `end` delimit a stretch of `text`: both are character
/// boundaries, `start` does not exceed `end`, and `end` does not exceed the
/// byte length of `text`.
pub open spec fn valid_span(text: Seq<char>, start: int, end: int) -> bool {
    &&& 0 <= start <= end <= byte_len(text)
    &&& on_boundary(text, start)
    &&& on_boundary(text, end)
}

/// `pat` occurs in `text` starting at character index `i`.
pub open spec fn occurs_at(text: Seq<char>, pat: Seq<char>, i: int) -> bool {
    &&& 0 <= i
    &&& i + pat.len() <= text.len()
    &&& text.subrange(i, i + pat.len()) == pat
}

/// `pat` occurs somewhere in `text`.
pub open spec fn contains_seq(text: Seq<char>, pat: Seq<char>) -> bool {
    exists|i: int| occurs_at(text, pat, i)
}

/// Index of the leftmost occurrence of `pat` in `text` at or after `from`.
pub open spec fn first_occurrence(text: Seq<char>, pat: Seq<char>, from: int) -> Option<int>
    decreases text.len() + 1 - from,
{
    if from < 0 || from + pat.len() > text.len() {
        None
    } else if occurs_at(text, pat, from) {
        Some(from)
    } else {
        first_occurrence(text, pat, from + 1)
    }
}

/// `fill` placed before, between and after the characters of `text`.
pub open spec fn interleave(text: Seq<char>, fill: Seq<char>) -> Seq<char>
    decreases text.len(),
{
    if text.len() == 0 {
        fill
    } else {
        fill + seq![text[0]] + interleave(text.drop_first(), fill)
    }
}

/// Every non-overlapping occurrence of `pat` in `text`, found left to right,
/// replaced by `to`. An empty `pat` matches before every character and at the
/// end.
pub open spec fn replace_all(text: Seq<char>, pat: Seq<char>, to: Seq<char>) -> Seq<char>
    decreases text.len(),
{
    if pat.len() == 0 {
        interleave(text, to)
    } else if text.len() < pat.len() {
        text
    } else if text.subrange(0, pat.len() as int) == pat {
        to + replace_all(text.subrange(pat.len() as int, text.len() as int), pat, to)
    } else {
        seq![text[0]] + replace_all(text.drop_first(), pat, to)
    }
}

/// `n` copies of `c`.
pub open spec fn repeat_char(c: char, n: nat) -> Seq<char> {
    Seq::new(n, |i: int| c)
}

/// `s` without its whitespace characters.
pub open spec fn strip_spaces(s: Seq<char>) -> Seq<char>
    decreases s.len(),
{
    if s.len() == 0 {
        s
    } else if is_white_space(s.last()) {
        strip_spaces(s.drop_last())
    } else {
        strip_spaces(s.drop_last()).push(s.last())
    }
}

/// `s` with every maximal run of whitespace replaced by one U+0020.
pub open spec fn normalize_spaces(s: Seq<char>) -> Seq<char>
    decreases s.len(),
{
    if s.len() == 0 {
        s
    } else {
        let init = normalize_spaces(s.drop_last());
        let c = s.last();
        if !is_white_space(c) {
            init.push(c)
        } else if s.len() >= 2 && is_white_space(s[s.len() - 2]) {
            init
        } else {
            init.push(' ')
        }
    }
}

/// Interleaving with nothing leaves the text as it is.
pub proof fn lemma_interleave_nothing(text: Seq<char>)
    ensures
        interleave(text, Seq::empty()) == text,
    decreases text.len(),
{
    if text.len() > 0 {
        lemma_interleave_nothing(text.drop_first());
        assert(Seq::<char>::empty() + seq![text[0]] + text.drop_first() =~= text);
    } else {
        assert(text =~= Seq::<char>::empty());
    }
}

/// Replacing by something as long as the pattern keeps the length of the
/// text.
pub proof fn lemma_replace_all_len(text: Seq<char>, pat: Seq<char>, to: Seq<char>)
    requires
        to.len() == pat.len(),
    ensures
        replace_all(text, pat, to).len() == text.len(),
    decreases text.len(),
{
    if pat.len() == 0 {
        assert(to =~= Seq::<char>::empty());
        lemma_interleave_nothing(text);
    } else if text.len() < pat.len() {
    } else if text.subrange(0, pat.len() as int) == pat {
        lemma_replace_all_len(text.subrange(pat.len() as int, text.len() as int), pat, to);
    } else {
        lemma_replace_all_len(text.drop_first(), pat, to);
    }
}

/// Masking a pattern keeps every character in its place: each place holds
/// what the text holds there, or the mask character.
pub proof fn lemma_replace_all_places(text: Seq<char>, pat: Seq<char>, c: char)
    ensures
        replace_all(text, pat, repeat_char(c, pat.len())).len() == text.len(),
        forall|p: int|
            0 <= p < text.len() ==> #[trigger] replace_all(text, pat, repeat_char(c, pat.len()))[p]
                == text[p] || replace_all(text, pat, repeat_char(c, pat.len()))[p] == c,
    decreases text.len(),
{
    let to = repeat_char(c, pat.len());
    lemma_replace_all_len(text, pat, to);
    if pat.len() == 0 {
        assert(to =~= Seq::<char>::empty());
        lemma_interleave_nothing(text);
    } else if text.len() < pat.len() {
    } else if text.subrange(0, pat.len() as int) == pat {
        let rest = text.subrange(pat.len() as int, text.len() as int);
        lemma_replace_all_places(rest, pat, c);
        lemma_replace_all_len(rest, pat, to);
        let r = replace_all(text, pat, to);
        assert forall|p: int| 0 <= p < text.len() implies #[trigger] r[p] == text[p] || r[p]
            == c by {
            if p >= pat.len() {
                assert(r[p] == replace_all(rest, pat, to)[p - pat.len()]);
                assert(rest[p - pat.len()] == text[p]);
            }
        }
    } else {
        let rest = text.drop_first();
        lemma_replace_all_places(rest, pat, c);
        lemma_replace_all_len(rest, pat, to);
        let r = replace_all(text, pat, to);
        assert forall|p: int| 0 <= p < text.len() implies #[trigger] r[p] == text[p] || r[p]
            == c by {
            if p >= 1 {
                assert(r[p] == replace_all(rest, pat, to)[p - 1]);
                assert(rest[p - 1] == text[p]);
            }
        }
    }
}

/// Replacing a pattern that does not occur leaves the text as it is.
pub proof fn lemma_replace_all_absent(text: Seq<char>, pat: Seq<char>, to: Seq<char>)
    requires
        pat.len() > 0,
        !contains_seq(text, pat),
    ensures
        replace_all(text, pat, to) == text,
    decreases text.len(),
{
    if text.len() < pat.len() {
    } else if text.subrange(0, pat.len() as int) == pat {
        assert(occurs_at(text, pat, 0));
    } else {
        let rest = text.drop_first();
        assert forall|i: int| !occurs_at(rest, pat, i) by {
            if occurs_at(rest, pat, i) {
                assert(rest.subrange(i, i + pat.len()) == text.subrange(i + 1, i + 1 + pat.len()));
                assert(occurs_at(text, pat, i + 1));
            }
        }
        lemma_replace_all_absent(rest, pat, to);
        assert(seq![text[0]] + rest =~= text);
    }
}

/// Byte offsets grow with the character index and end at the byte length.
pub proof fn lemma_offsets_ordered(text: Seq<char>, i: int, j: int)
    requires
        0 <= i <= j <= text.len(),
    ensures
        byte_offset(text, i) <= byte_offset(text, j) <= byte_len(text),
{
    lemma_byte_len_bounds(text, j);
    lemma_byte_len_bounds(text.take(j), i);
    assert(text.take(j).take(i) == text.take(i));
}

/// What is found at a byte offset is a character index with that offset.
pub proof fn lemma_char_index_at(text: Seq<char>, byte: int, from: int)
    requires
        0 <= from,
    ensures
        match char_index_at(text, byte, from) {
            Some(i) => from <= i <= text.len() && byte_offset(text, i) == byte,
            None => true,
        },
    decreases text.len() + 1 - from,
{
    if from <= text.len() && byte_offset(text, from) != byte {
        lemma_char_index_at(text, byte, from + 1);
    }
}

/// Where a slice between two byte offsets exists, the offsets delimit a
/// stretch of the text.
pub proof fn lemma_byte_slice_valid(text: Seq<char>, start: int, end: int)
    requires
        byte_slice(text, start, end) is Some,
    ensures
        valid_span(text, start, end),
{
    lemma_char_index_at(text, start, 0);
    lemma_char_index_at(text, end, 0);
    let i = char_index_at(text, start, 0)->Some_0;
    let j = char_index_at(text, end, 0)->Some_0;
    lemma_offsets_ordered(text, i, j);
}

/// Byte length is monotone along prefixes and bounded by four bytes a
/// character.
pub proof fn lemma_byte_len_bounds(s: Seq<char>, i: int)
    requires
        0 <= i <= s.len(),
    ensures
        byte_len(s.take(i)) <= byte_len(s),
        s.len() <= byte_len(s) <= 4 * s.len(),
    decreases s.len(),
{
    if s.len() == 0 {
        assert(s.take(i) == s);
    } else if i == s.len() {
        assert(s.take(i) == s);
        lemma_byte_len_bounds(s.drop_last(), 0);
    } else {
        lemma_byte_len_bounds(s.drop_last(), i);
        assert(s.drop_last().take(i) == s.take(i));
    }
}

/// The maximal runs of non-whitespace characters of `s`, in order.
pub open spec fn words_of(s: Seq<char>) -> Seq<Seq<char>>
    decreases s.len(),
{
    if s.len() == 0 {
        Seq::empty()
    } else if is_white_space(s.last()) {
        words_of(s.drop_last())
    } else if s.len() >= 2 && !is_white_space(s[s.len() - 2]) && words_of(s.drop_last()).len() > 0 {
        words_of(s.drop_last()).drop_last().push(words_of(s.drop_last()).last().push(s.last()))
    } else {
        words_of(s.drop_last()).push(seq![s.last()])
    }
}

/// A text with characters and without whitespace is one word.
pub proof fn lemma_one_word(s: Seq<char>)
    requires
        s.len() > 0,
        forall|i: int| 0 <= i < s.len() ==> !is_white_space(#[trigger] s[i]),
    ensures
        words_of(s) == seq![s],
    decreases s.len(),
{
    if s.len() == 1 {
        assert(words_of(s.drop_last()).len() == 0);
        assert(seq![s.last()] =~= s);
        assert(words_of(s) =~= seq![s]);
    } else {
        let init = s.drop_last();
        assert forall|i: int| 0 <= i < init.len() implies !is_white_space(#[trigger] init[i]) by {
            assert(init[i] == s[i]);
        }
        lemma_one_word(init);
        assert(!is_white_space(s[s.len() - 2]));
        assert(!is_white_space(s[s.len() - 1]));
        assert(words_of(init).last().push(s.last()) =~= s);
        assert(words_of(s) =~= seq![s]);
    }
}

/// `s` cut into consecutive pieces of `size` characters; the last piece may
/// be shorter.
pub open spec fn chunks_of(s: Seq<char>, size: int) -> Seq<Seq<char>>
    decreases s.len(),
{
    if s.len() == 0 || size <= 0 {
        Seq::empty()
    } else if s.len() <= size {
        seq![s]
    } else {
        seq![s.take(size)] + chunks_of(s.skip(size), size)
    }
}

/// A line without the carriage return that ends it, if one does.
pub open spec fn without_cr(line: Seq<char>) -> Seq<char> {
    if line.len() > 0 && line.last() == '\r' {
        line.drop_last()
    } else {
        line
    }
}

/// The lines of `s`, from character index `from` on, the current line
/// having started at index `start`. A line ends at a line feed; the line
/// feed, and a carriage return right before it, are not part of the line.
/// What follows the last line feed is a line if it is not empty.
pub open spec fn lines_from(s: Seq<char>, start: int, from: int) -> Seq<Seq<char>>
    decreases s.len() - from,
{
    if from < 0 || from >= s.len() {
        if 0 <= start < s.len() {
            seq![s.subrange(start, s.len() as int)]
        } else {
            Seq::empty()
        }
    } else if s[from] == '\n' {
        seq![without_cr(s.subrange(start, from))] + lines_from(s, from + 1, from + 1)
    } else {
        lines_from(s, start, from + 1)
    }
}

/// The lines of `s`.
pub open spec fn lines_of(s: Seq<char>) -> Seq<Seq<char>> {
    lines_from(s, 0, 0)
}

/// The character sequences of a list of strings.
pub open spec fn views(v: Seq<String>) -> Seq<Seq<char>> {
    Seq::new(v.len(), |i: int| v[i]@)
}

/// `str::len` returns the length of the string in bytes, that is, of its
/// UTF-8 encoding.
#[verifier::external_body]
pub(crate) fn byte_length(s: &str) -> (n: usize)
    ensures
        n == byte_len(s@),
{
    s.len()
}

/// `String::push` appends one character to the end of the string.
#[verifier::external_body]
fn push_char(s: &mut String, c: char)
    ensures
        final(s)@ == old(s)@.push(c),
{
    s.push(c);
}

/// The characters of `s`, in order.
pub fn to_chars(s: &str) -> (v: Vec<char>)
    ensures
        v@ == s@,
{
    let mut v: Vec<char> = Vec::new();
    for c in it: s.chars()
        invariant
            v@ == it.seq().take(it.index() as int),
            it.seq() == s@,
    {
        v.push(c);
    }
    v
}

/// The string made of the characters of `v`, in order.
pub fn from_chars(v: &Vec<char>) -> (s: String)
    ensures
        s@ == v@,
{
    let mut s = String::new();
    let mut i: usize = 0;
    while i < v.len()
        invariant
            i <= v.len(),
            s@ == v@.take(i as int),
        decreases v.len() - i,
    {
        push_char(&mut s, v[i]);
        i += 1;
        assert(v@.take(i as int) == v@.take(i as int - 1).push(v@[i as int - 1]));
    }
    assert(v@.take(v.len() as int) == v@);
    s
}

/// The string made of `len` characters of `v` starting at index `start`.
pub fn string_of_range(v: &Vec<char>, start: usize, len: usize) -> (s: String)
    requires
        start + len <= v.len(),
    ensures
        s@ == v@.subrange(start as int, start + len),
{
    let mut s = String::new();
    let mut i: usize = 0;
    while i < len
        invariant
            i <= len,
            start + len <= v.len(),
            s@ == v@.subrange(start as int, start + i),
        decreases len - i,
    {
        push_char(&mut s, v[start + i]);
        i += 1;
        assert(v@.subrange(start as int, start + i) == v@.subrange(start as int, start + i - 1).push(
            v@[start + i - 1],
        ));
    }
    s
}

/// The character sequences of a list of character vectors.
pub open spec fn rows(v: Seq<Vec<char>>) -> Seq<Seq<char>> {
    Seq::new(v.len(), |i: int| v[i]@)
}

/// Whether `pat` occurs in `text` at character index `i`.
pub fn matches_at(text: &Vec<char>, pat: &Vec<char>, i: usize) -> (b: bool)
    ensures
        b == occurs_at(text@, pat@, i as int),
{
    if i > text.len() || pat.len() > text.len() - i {
        return false;
    }
    let mut k: usize = 0;
    while k < pat.len()
        invariant
            k <= pat.len(),
            i + pat.len() <= text.len(),
            forall|j: int| 0 <= j < k ==> text@[i + j] == pat@[j],
        decreases pat.len() - k,
    {
        if text[i + k] != pat[k] {
            assert(text@.subrange(i as int, i + pat.len())[k as int] == text@[i + k]);
            return false;
        }
        k += 1;
    }
    assert(text@.subrange(i as int, i + pat.len()) =~= pat@);
    true
}

/// Leftmost occurrence of `pat` in `text` at or after character index `from`.
pub fn find_from(text: &Vec<char>, pat: &Vec<char>, from: usize) -> (r: Option<usize>)
    ensures
        match r {
            Some(i) => first_occurrence(text@, pat@, from as int) == Some(i as int),
            None => first_occurrence(text@, pat@, from as int) is None,
        },
{
    if from > text.len() || pat.len() > text.len() - from {
        return None;
    }
    let last: usize = text.len() - pat.len();
    let mut i: usize = from;
    while i <= last
        invariant
            from <= i <= last + 1,
            last == text.len() - pat.len(),
            first_occurrence(text@, pat@, from as int) == first_occurrence(text@, pat@, i as int),
        decreases last + 1 - i,
    {
        if matches_at(text, pat, i) {
            return Some(i);
        }
        if i == last {
            assert(first_occurrence(text@, pat@, i + 1) is None);
            return None;
        }
        i += 1;
    }
    None
}

/// Relates the leftmost occurrence to the occurrence predicate: it is an
/// occurrence, nothing occurs between `from` and it, and it exists whenever
/// any occurrence at or after `from` does.
pub proof fn lemma_first_occurrence(text: Seq<char>, pat: Seq<char>, from: int)
    requires
        0 <= from,
    ensures
        match first_occurrence(text, pat, from) {
            Some(i) => from <= i && occurs_at(text, pat, i) && forall|j: int|
                from <= j < i ==> !occurs_at(text, pat, j),
            None => forall|j: int| from <= j ==> !occurs_at(text, pat, j),
        },
    decreases text.len() + 1 - from,
{
    if from + pat.len() > text.len() {
    } else if occurs_at(text, pat, from) {
    } else {
        lemma_first_occurrence(text, pat, from + 1);
    }
}

/// Whether `pat` occurs in `text`.
pub fn contains(text: &Vec<char>, pat: &Vec<char>) -> (b: bool)
    ensures
        b == contains_seq(text@, pat@),
{
    let r = find_from(text, pat, 0);
    proof {
        lemma_first_occurrence(text@, pat@, 0);
    }
    r.is_some()
}

/// `text` with every non-overlapping occurrence of `pat` replaced by `to`.
pub fn replace_chars(text: &Vec<char>, pat: &Vec<char>, to: &Vec<char>) -> (out: Vec<char>)
    ensures
        out@ == replace_all(text@, pat@, to@),
{
    let mut out: Vec<char> = Vec::new();
    let n = text.len();
    let m = pat.len();
    let mut i: usize = 0;
    assert(text@.subrange(0, n as int) == text@);
    if m == 0 {
        while i < n
            invariant
                i <= n,
                n == text.len(),
                pat@.len() == 0,
                interleave(text@, to@) == out@ + interleave(
                    text@.subrange(i as int, n as int),
                    to@,
                ),
            decreases n - i,
        {
            let ghost rest = text@.subrange(i as int, n as int);
            proof {
                assert(rest.drop_first() == text@.subrange(i + 1, n as int));
            }
            append_chars(&mut out, to);
            out.push(text[i]);
            i += 1;
        }
        proof {
            assert(text@.subrange(n as int, n as int).len() == 0);
        }
        append_chars(&mut out, to);
        return out;
    }
    while i < n
        invariant
            i <= n,
            n == text.len(),
            m == pat.len(),
            m > 0,
            replace_all(text@, pat@, to@) == out@ + replace_all(
                text@.subrange(i as int, n as int),
                pat@,
                to@,
            ),
        decreases n - i,
    {
        let ghost rest = text@.subrange(i as int, n as int);
        if matches_at(text, pat, i) {
            proof {
                assert(rest.subrange(0, m as int) == text@.subrange(i as int, i + m));
                assert(rest.subrange(m as int, rest.len() as int) == text@.subrange(i + m, n as int));
            }
            append_chars(&mut out, to);
            i += m;
        } else {
            proof {
                if rest.len() >= m {
                    assert(rest.subrange(0, m as int) == text@.subrange(i as int, i + m));
                }
                assert(rest.drop_first() == text@.subrange(i + 1, n as int));
            }
            out.push(text[i]);
            i += 1;
        }
    }
    proof {
        assert(text@.subrange(n as int, n as int).len() == 0);
        assert(text@.subrange(0, n as int) == text@);
    }
    out
}

/// Appends the characters of `more` to `out`.
pub fn append_chars(out: &mut Vec<char>, more: &Vec<char>)
    ensures
        final(out)@ == old(out)@ + more@,
{
    let mut k: usize = 0;
    while k < more.len()
        invariant
            k <= more.len(),
            out@ == old(out)@ + more@.take(k as int),
        decreases more.len() - k,
    {
        out.push(more[k]);
        k += 1;
        assert(more@.take(k as int) == more@.take(k as int - 1).push(more@[k as int - 1]));
    }
    assert(more@.take(more.len() as int) == more@);
}

/// `s` without its whitespace characters.
pub fn strip_space_chars(s: &Vec<char>) -> (out: Vec<char>)
    ensures
        out@ == strip_spaces(s@),
{
    let mut out: Vec<char> = Vec::new();
    let mut i: usize = 0;
    while i < s.len()
        invariant
            i <= s.len(),
            out@ == strip_spaces(s@.take(i as int)),
        decreases s.len() - i,
    {
        let c = s[i];
        proof {
            assert(s@.take(i + 1).drop_last() == s@.take(i as int));
        }
        if !c.is_whitespace() {
            out.push(c);
        }
        i += 1;
    }
    assert(s@.take(s.len() as int) == s@);
    out
}

/// `s` with every maximal run of whitespace collapsed to one U+0020.
pub fn normalize_space_chars(s: &Vec<char>) -> (out: Vec<char>)
    ensures
        out@ == normalize_spaces(s@),
{
    let mut out: Vec<char> = Vec::new();
    let mut in_run = false;
    let mut i: usize = 0;
    while i < s.len()
        invariant
            i <= s.len(),
            out@ == normalize_spaces(s@.take(i as int)),
            in_run == (i > 0 && is_white_space(s@[i - 1])),
        decreases s.len() - i,
    {
        let c = s[i];
        proof {
            assert(s@.take(i + 1).drop_last() == s@.take(i as int));
        }
        if c.is_whitespace() {
            if !in_run {
                out.push(' ');
                in_run = true;
            }
        } else {
            out.push(c);
            in_run = false;
        }
        i += 1;
    }
    assert(s@.take(s.len() as int) == s@);
    out
}

/// The characters of `text` and the byte offset of every character index,
/// the end included.
pub fn char_offsets(text: &str) -> (r: (Vec<char>, Vec<usize>))
    ensures
        r.0@ == text@,
        r.1@.len() == text@.len() + 1,
        forall|i: int| 0 <= i <= text@.len() ==> r.1@[i] == byte_offset(text@, i),
{
    let chars = to_chars(text);
    let total = byte_length(text);
    let mut o: Vec<usize> = Vec::new();
    let mut acc: usize = 0;
    o.push(acc);
    let mut i: usize = 0;
    assert(chars@.take(0).len() == 0);
    while i < chars.len()
        invariant
            i <= chars.len(),
            total == byte_len(chars@),
            acc == byte_offset(chars@, i as int),
            o@.len() == i + 1,
            forall|j: int| 0 <= j <= i ==> o@[j] == byte_offset(chars@, j),
        decreases chars.len() - i,
    {
        proof {
            assert(chars@.take(i + 1).drop_last() == chars@.take(i as int));
            lemma_byte_len_bounds(chars@, i + 1);
        }
        acc = acc + chars[i].len_utf8();
        o.push(acc);
        i += 1;
    }
    (chars, o)
}

/// The character index that starts at byte offset `byte`, by a scan of the
/// offset table of the text.
pub fn index_of_byte(chars: &Vec<char>, offsets: &Vec<usize>, byte: usize) -> (r: Option<usize>)
    requires
        offsets@.len() == chars@.len() + 1,
        forall|i: int| 0 <= i <= chars@.len() ==> offsets@[i] == byte_offset(chars@, i),
    ensures
        match r {
            Some(i) => char_index_at(chars@, byte as int, 0) == Some(i as int) && i <= chars@.len(),
            None => char_index_at(chars@, byte as int, 0) is None,
        },
{
    let mut i: usize = 0;
    while i < offsets.len()
        invariant
            i <= offsets@.len(),
            offsets@.len() == chars@.len() + 1,
            forall|j: int| 0 <= j <= chars@.len() ==> offsets@[j] == byte_offset(chars@, j),
            char_index_at(chars@, byte as int, 0) == char_index_at(chars@, byte as int, i as int),
        decreases offsets.len() - i,
    {
        if offsets[i] == byte {
            return Some(i);
        }
        i += 1;
    }
    None
}

/// The characters between byte offsets `start` and `end` of the text whose
/// offset table is `offsets`.
pub fn slice_bytes(chars: &Vec<char>, offsets: &Vec<usize>, start: usize, end: usize) -> (r: Option<
    Vec<char>,
>)
    requires
        offsets@.len() == chars@.len() + 1,
        forall|i: int| 0 <= i <= chars@.len() ==> offsets@[i] == byte_offset(chars@, i),
    ensures
        match r {
            Some(v) => byte_slice(chars@, start as int, end as int) == Some(v@),
            None => byte_slice(chars@, start as int, end as int) is None,
        },
{
    match index_of_byte(chars, offsets, start) {
        Some(i) => match index_of_byte(chars, offsets, end) {
            Some(j) => {
                if i <= j {
                    let mut out: Vec<char> = Vec::new();
                    let mut k: usize = i;
                    while k < j
                        invariant
                            i <= k <= j <= chars@.len(),
                            out@ == chars@.subrange(i as int, k as int),
                        decreases j - k,
                    {
                        out.push(chars[k]);
                        k += 1;
                        assert(chars@.subrange(i as int, k as int) == chars@.subrange(
                            i as int,
                            k - 1,
                        ).push(chars@[k - 1]));
                    }
                    Some(out)
                } else {
                    None
                }
            },
            None => None,
        },
        None => None,
    }
}

/// The maximal runs of non-whitespace characters of `s`, in order.
pub fn split_words(s: &Vec<char>) -> (out: Vec<Vec<char>>)
    ensures
        rows(out@) == words_of(s@),
{
    let mut out: Vec<Vec<char>> = Vec::new();
    let mut current: Vec<char> = Vec::new();
    let mut i: usize = 0;
    assert(rows(out@) =~= words_of(s@.take(0)));
    while i < s.len()
        invariant
            i <= s.len(),
            current@.len() > 0 <==> (i > 0 && !is_white_space(s@[i - 1])),
            current@.len() > 0 ==> words_of(s@.take(i as int)).len() > 0 && rows(out@).push(
                current@,
            ) == words_of(s@.take(i as int)),
            current@.len() == 0 ==> rows(out@) == words_of(s@.take(i as int)),
        decreases s.len() - i,
    {
        let c = s[i];
        proof {
            assert(s@.take(i + 1).drop_last() == s@.take(i as int));
            assert(s@.take(i + 1).last() == c);
            if i > 0 {
                assert(s@.take(i + 1)[i - 1] == s@[i - 1]);
            }
        }
        if c.is_whitespace() {
            if current.len() > 0 {
                let ghost before = rows(out@);
                out.push(current);
                current = Vec::new();
                assert(rows(out@) =~= words_of(s@.take(i as int)));
            }
        } else {
            let ghost prev = words_of(s@.take(i as int));
            let ghost cur = current@;
            current.push(c);
            proof {
                let next = s@.take(i + 1);
                if cur.len() > 0 {
                    assert(prev.drop_last() =~= rows(out@));
                    assert(prev.last() == cur);
                    assert(next[next.len() - 2] == s@[i - 1]);
                    assert(words_of(next) == prev.drop_last().push(prev.last().push(c)));
                    assert(rows(out@).push(current@) =~= words_of(next));
                } else {
                    if i > 0 {
                        assert(next[next.len() - 2] == s@[i - 1]);
                    }
                    assert(words_of(next) == prev.push(seq![c]));
                    assert(current@ =~= seq![c]);
                    assert(rows(out@).push(current@) =~= words_of(next));
                }
            }
        }
        i += 1;
    }
    assert(s@.take(s.len() as int) == s@);
    if current.len() > 0 {
        out.push(current);
        assert(rows(out@) =~= words_of(s@));
    }
    out
}

/// `s` cut into consecutive pieces of `size` characters.
pub fn split_chunks(s: &Vec<char>, size: usize) -> (out: Vec<Vec<char>>)
    requires
        size > 0,
    ensures
        rows(out@) == chunks_of(s@, size as int),
{
    let mut out: Vec<Vec<char>> = Vec::new();
    let n = s.len();
    let mut i: usize = 0;
    assert(s@.skip(0) == s@);
    while i < n
        invariant
            i <= n,
            n == s.len(),
            size > 0,
            rows(out@) + chunks_of(s@.skip(i as int), size as int) == chunks_of(s@, size as int),
        decreases n - i,
    {
        let take = if n - i <= size {
            n - i
        } else {
            size
        };
        let mut piece: Vec<char> = Vec::new();
        let mut k: usize = 0;
        while k < take
            invariant
                k <= take,
                i + take <= n,
                n == s.len(),
                piece@ == s@.subrange(i as int, i + k),
            decreases take - k,
        {
            piece.push(s[i + k]);
            k += 1;
            assert(s@.subrange(i as int, i + k) == s@.subrange(i as int, i + k - 1).push(
                s@[i + k - 1],
            ));
        }
        proof {
            let rest = s@.skip(i as int);
            if n - i <= size {
                assert(piece@ =~= rest);
                assert(s@.skip(i + take).len() == 0);
            } else {
                assert(piece@ =~= rest.take(size as int));
                assert(rest.skip(size as int) =~= s@.skip(i + take));
            }
        }
        let ghost before = rows(out@);
        out.push(piece);
        assert(rows(out@) =~= before.push(piece@));
        i += take;
    }
    assert(s@.skip(n as int).len() == 0);
    out
}

/// The lines of `s`.
pub fn split_lines(s: &Vec<char>) -> (out: Vec<Vec<char>>)
    ensures
        rows(out@) == lines_of(s@),
{
    let mut out: Vec<Vec<char>> = Vec::new();
    let n = s.len();
    let mut start: usize = 0;
    let mut i: usize = 0;
    while i < n
        invariant
            start <= i <= n,
            n == s.len(),
            rows(out@) + lines_from(s@, start as int, i as int) == lines_of(s@),
        decreases n - i,
    {
        if s[i] == '\n' {
            let mut end = i;
            if end > start && s[end - 1] == '\r' {
                end = end - 1;
            }
            let mut line: Vec<char> = Vec::new();
            let mut k: usize = start;
            while k < end
                invariant
                    start <= k <= end <= n,
                    n == s.len(),
                    line@ == s@.subrange(start as int, k as int),
                decreases end - k,
            {
                line.push(s[k]);
                k += 1;
                assert(s@.subrange(start as int, k as int) == s@.subrange(start as int, k - 1).push(
                    s@[k - 1],
                ));
            }
            proof {
                let whole = s@.subrange(start as int, i as int);
                if i > start && s@[i - 1] == '\r' {
                    assert(whole.last() == '\r');
                    assert(line@ =~= whole.drop_last());
                } else {
                    assert(line@ =~= whole);
                }
            }
            let ghost before = rows(out@);
            out.push(line);
            assert(rows(out@) =~= before.push(without_cr(s@.subrange(start as int, i as int))));
            start = i + 1;
        }
        i += 1;
    }
    if start < n {
        let mut line: Vec<char> = Vec::new();
        let mut k: usize = start;
        while k < n
            invariant
                start <= k <= n,
                n == s.len(),
                line@ == s@.subrange(start as int, k as int),
            decreases n - k,
        {
            line.push(s[k]);
            k += 1;
            assert(s@.subrange(start as int, k as int) == s@.subrange(start as int, k - 1).push(
                s@[k - 1],
            ));
        }
        let ghost before = rows(out@);
        out.push(line);
        assert(rows(out@) =~= before.push(s@.subrange(start as int, n as int)));
    }
    out
}

/// An owned copy of `items`.
pub fn clone_strings(items: &[String]) -> (r: Vec<String>)
    ensures
        views(r@) == views(items@),
        r@.len() == items@.len(),
{
    let mut out: Vec<String> = Vec::new();
    let mut i: usize = 0;
    while i < items.len()
        invariant
            i <= items.len(),
            out@.len() == i,
            forall|j: int| 0 <= j < i ==> out@[j]@ == items@[j]@,
        decreases items.len() - i,
    {
        out.push(items[i].clone());
        i += 1;
    }
    assert(views(out@) =~= views(items@));
    out
}

/// `n` copies of `c`.
pub fn repeat(c: char, n: usize) -> (out: Vec<char>)
    ensures
        out@ == repeat_char(c, n as nat),
{
    let mut out: Vec<char> = Vec::new();
    let mut i: usize = 0;
    while i < n
        invariant
            i <= n,
            out@ == repeat_char(c, i as nat),
        decreases n - i,
    {
        out.push(c);
        i += 1;
        assert(out@ =~= repeat_char(c, i as nat));
    }
    out
}

} // verus!
