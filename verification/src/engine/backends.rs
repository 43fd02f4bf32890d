//! The two bundled back ends the dispatcher can delegate to: the
//! `aho-corasick` automaton and a `regex` alternation.
//!
//! Neither is reimplemented here. Each call is made by one small function
//! whose contract gives the outcome a name; the dispatcher's contracts are
//! stated over those names.

use vstd::prelude::*;
use crate::text::views;

verus! {

#[verifier::external_type_specification]
#[verifier::external_body]
pub struct ExAhoCorasick(aho_corasick::AhoCorasick);

#[verifier::external_type_specification]
#[verifier::external_body]
pub struct ExBuildError(aho_corasick::BuildError);

#[verifier::external_type_specification]
#[verifier::external_body]
pub struct ExRegex(regex::Regex);

#[verifier::external_type_specification]
#[verifier::external_body]
pub struct ExRegexError(regex::Error);

/// The patterns an automaton was built from, in order.
pub uninterp spec fn ac_patterns(ac: aho_corasick::AhoCorasick) -> Seq<Seq<char>>;

/// The automaton is one that [`ac_build`] makes: it searches unanchored and
/// reports leftmost-longest matches, the builder's other settings left as
/// they are.
pub uninterp spec fn ac_leftmost_longest(ac: aho_corasick::AhoCorasick) -> bool;

/// Whether a leftmost-longest automaton can be built from the patterns.
pub uninterp spec fn ac_builds(patterns: Seq<Seq<char>>) -> bool;

/// The byte span of the first match a leftmost-longest automaton over
/// `patterns` reports in `text`.
pub uninterp spec fn ac_first(patterns: Seq<Seq<char>>, text: Seq<char>) -> Option<(usize, usize)>;

/// The byte spans of the successive non-overlapping matches a
/// leftmost-longest automaton over `patterns` reports in `text`.
pub uninterp spec fn ac_all(patterns: Seq<Seq<char>>, text: Seq<char>) -> Seq<(usize, usize)>;

/// `AhoCorasickBuilder::build` with `MatchKind::LeftmostLongest`. Whether
/// the build succeeds depends on the patterns alone, and an automaton that
/// was built holds exactly the patterns given.
#[verifier::external_body]
pub(crate) fn ac_build(patterns: &Vec<String>) -> (r: Result<
    aho_corasick::AhoCorasick,
    aho_corasick::BuildError,
>)
    ensures
        r is Ok <==> ac_builds(views(patterns@)),
        r is Ok ==> ac_patterns(r->Ok_0) == views(patterns@),
        r is Ok ==> ac_leftmost_longest(r->Ok_0),
{
    aho_corasick::AhoCorasickBuilder::new().match_kind(
        aho_corasick::MatchKind::LeftmostLongest,
    ).build(patterns)
}

/// `AhoCorasick::find`: the span of the first match, as the automaton's
/// match kind defines it.
#[verifier::external_body]
pub(crate) fn ac_find(ac: &aho_corasick::AhoCorasick, text: &str) -> (r: Option<(usize, usize)>)
    requires
        ac_leftmost_longest(*ac),
    ensures
        r == ac_first(ac_patterns(*ac), text@),
{
    ac.find(text).map(|m| (m.start(), m.end()))
}

/// `AhoCorasick::find_iter`: the spans of the successive non-overlapping
/// matches.
#[verifier::external_body]
pub(crate) fn ac_find_all(ac: &aho_corasick::AhoCorasick, text: &str) -> (r: Vec<(usize, usize)>)
    requires
        ac_leftmost_longest(*ac),
    ensures
        r@ == ac_all(ac_patterns(*ac), text@),
{
    ac.find_iter(text).map(|m| (m.start(), m.end())).collect()
}

/// The characters that have a meaning of their own in a regular expression.
pub open spec fn is_meta(c: char) -> bool {
    c == '\\' || c == '.' || c == '+' || c == '*' || c == '?' || c == '(' || c == ')' || c == '|'
        || c == '[' || c == ']' || c == '{' || c == '}' || c == '^' || c == '$' || c == '#' || c
        == '&' || c == '-' || c == '~'
}

/// `s` with a backslash before each meta character.
pub open spec fn escaped(s: Seq<char>) -> Seq<char>
    decreases s.len(),
{
    if s.len() == 0 {
        s
    } else if is_meta(s.last()) {
        escaped(s.drop_last()).push('\\').push(s.last())
    } else {
        escaped(s.drop_last()).push(s.last())
    }
}

/// `regex::escape` puts a backslash before every meta character and leaves
/// the other characters as they are.
#[verifier::external_body]
pub(crate) fn regex_escape(s: &str) -> (r: String)
    ensures
        r@ == escaped(s@),
{
    regex::escape(s)
}

/// The source text a regular expression was compiled from.
pub uninterp spec fn regex_source(re: regex::Regex) -> Seq<char>;

/// The expression is one that [`regex_new`] compiles: with the default
/// options of `Regex::new`.
pub uninterp spec fn regex_plain(re: regex::Regex) -> bool;

/// Whether the source text compiles to a regular expression.
pub uninterp spec fn regex_compiles(source: Seq<char>) -> bool;

/// The byte span of the leftmost match of the expression compiled from
/// `source` in `text`.
pub uninterp spec fn regex_first(source: Seq<char>, text: Seq<char>) -> Option<(usize, usize)>;

/// The byte spans of the successive non-overlapping matches of the
/// expression compiled from `source` in `text`.
pub uninterp spec fn regex_all(source: Seq<char>, text: Seq<char>) -> Seq<(usize, usize)>;

/// `text` after every non-overlapping match of the expression compiled from
/// `source` has been replaced by the expansion of `with`.
pub uninterp spec fn regex_replaced(source: Seq<char>, text: Seq<char>, with: Seq<char>) -> Seq<
    char,
>;

/// `Regex::new` compiles the source text. Whether that succeeds depends on
/// the text alone, and the compiled expression remembers its source.
#[verifier::external_body]
pub(crate) fn regex_new(source: &str) -> (r: Result<regex::Regex, regex::Error>)
    ensures
        r is Ok <==> regex_compiles(source@),
        r is Ok ==> regex_source(r->Ok_0) == source@,
        r is Ok ==> regex_plain(r->Ok_0),
{
    regex::Regex::new(source)
}

/// `Regex::find`: the span of the leftmost match.
#[verifier::external_body]
pub(crate) fn regex_find(re: &regex::Regex, text: &str) -> (r: Option<(usize, usize)>)
    requires
        regex_plain(*re),
    ensures
        r == regex_first(regex_source(*re), text@),
{
    re.find(text).map(|m| (m.start(), m.end()))
}

/// `Regex::find_iter`: the spans of the successive non-overlapping matches.
#[verifier::external_body]
pub(crate) fn regex_find_all(re: &regex::Regex, text: &str) -> (r: Vec<(usize, usize)>)
    requires
        regex_plain(*re),
    ensures
        r@ == regex_all(regex_source(*re), text@),
{
    re.find_iter(text).map(|m| (m.start(), m.end())).collect()
}

/// `Regex::replace_all`: every non-overlapping match replaced by the
/// expansion of `with`.
#[verifier::external_body]
pub(crate) fn regex_replace_all(re: &regex::Regex, text: &str, with: &str) -> (r: String)
    requires
        regex_plain(*re),
    ensures
        r@ == regex_replaced(regex_source(*re), text@, with@),
{
    re.replace_all(text, with).into_owned()
}

} // verus!
