//! A character trie over a mutable set of words, with longest-prefix
//! lookup, masking and removal.

use vstd::prelude::*;
use crate::text::{append_chars, from_chars, repeat, repeat_char, string_of_range, to_chars, views};

verus! {

/// A node of the trie: the character on the edge that leads to it, whether
/// a word ends here, and the nodes below.
pub struct TrieNode {
    children: Vec<TrieNode>,
    character: char,
    is_end: bool,
    is_root_node: bool,
}

/// Index, at or after `from`, of the first of `children` that stands for
/// `c`.
pub closed spec fn first_with(children: Seq<TrieNode>, c: char, from: int) -> Option<int>
    decreases children.len() - from,
{
    if from < 0 || from >= children.len() {
        None
    } else if children[from].character == c {
        Some(from)
    } else {
        first_with(children, c, from + 1)
    }
}

/// No two of `children` stand for the same character.
pub closed spec fn distinct(children: Seq<TrieNode>) -> bool {
    forall|i: int, j: int|
        0 <= i < j < children.len() ==> (#[trigger] children[i]).character != (
        #[trigger] children[j]).character
}

impl TrieNode {
    /// The child that stands for `c`.
    pub closed spec fn child_at(self, c: char) -> Option<TrieNode> {
        match first_with(self.children@, c, 0) {
            Some(i) => Some(self.children@[i]),
            None => None,
        }
    }

    /// The node reached from this one along the characters of `w`.
    pub closed spec fn descend(self, w: Seq<char>) -> Option<TrieNode>
        decreases w.len(),
    {
        if w.len() == 0 {
            Some(self)
        } else {
            match self.child_at(w[0]) {
                Some(child) => child.descend(w.drop_first()),
                None => None,
            }
        }
    }

    /// `w` leads from this node to a node at which a word ends.
    pub closed spec fn holds(self, w: Seq<char>) -> bool {
        match self.descend(w) {
            Some(n) => n.is_end,
            None => false,
        }
    }

    /// Below this node no node has two children for one character.
    pub closed spec fn tidy(self) -> bool
        decreases self,
    {
        &&& distinct(self.children@)
        &&& forall|i: int| 0 <= i < self.children@.len() ==> (#[trigger] self.children@[i]).tidy()
    }

    /// Whether a word ends at this node.
    pub closed spec fn ends_word(self) -> bool {
        self.is_end
    }

    /// Whether this node is the root of a trie.
    pub closed spec fn roots(self) -> bool {
        self.is_root_node
    }

    /// Creates a node without children at which no word ends.
    fn new(ch: char, is_root: bool) -> (n: Self)
        ensures
            n.children@.len() == 0,
            n.character == ch,
            !n.is_end,
            n.is_root_node == is_root,
            n.tidy(),
    {
        TrieNode { children: Vec::new(), character: ch, is_end: false, is_root_node: is_root }
    }

    /// Whether this node is the root of a trie.
    pub fn is_root_node(&self) -> (b: bool)
        ensures
            b == self.roots(),
    {
        self.is_root_node
    }

    /// Whether a word ends at this node.
    pub fn is_end(&self) -> (b: bool)
        ensures
            b == self.ends_word(),
    {
        self.is_end
    }

    /// Whether the node serves no purpose: it is not the root, no word ends
    /// at it and nothing hangs below it.
    fn can_be_deleted(&self) -> (b: bool)
        ensures
            b == (!self.is_root_node && !self.is_end && self.children@.len() == 0),
    {
        !self.is_root_node() && !self.is_end() && self.children.len() == 0
    }

    /// Index of the child that stands for `c`.
    fn find_child(&self, c: char) -> (r: Option<usize>)
        ensures
            match r {
                Some(i) => first_with(self.children@, c, 0) == Some(i as int) && i
                    < self.children@.len() && self.children@[i as int].character == c,
                None => first_with(self.children@, c, 0) is None,
            },
    {
        let mut i: usize = 0;
        while i < self.children.len()
            invariant
                i <= self.children@.len(),
                first_with(self.children@, c, 0) == first_with(self.children@, c, i as int),
            decreases self.children.len() - i,
        {
            if self.children[i].character == c {
                return Some(i);
            }
            i += 1;
        }
        None
    }
}

/// What [`first_with`] finds is the first child for the character.
proof fn lemma_first_with(children: Seq<TrieNode>, c: char, from: int)
    requires
        0 <= from,
    ensures
        match first_with(children, c, from) {
            Some(i) => from <= i < children.len() && children[i].character == c && forall|j: int|
                from <= j < i ==> (#[trigger] children[j]).character != c,
            None => forall|j: int|
                from <= j < children.len() ==> (#[trigger] children[j]).character != c,
        },
    decreases children.len() - from,
{
    if from < children.len() && children[from].character != c {
        lemma_first_with(children, c, from + 1);
    }
}

/// Lists of children that stand for the same characters, place by place,
/// are searched alike.
proof fn lemma_first_with_same(a: Seq<TrieNode>, b: Seq<TrieNode>, c: char, from: int)
    requires
        0 <= from,
        a.len() == b.len(),
        forall|j: int| 0 <= j < a.len() ==> (#[trigger] a[j]).character == b[j].character,
    ensures
        first_with(a, c, from) == first_with(b, c, from),
    decreases a.len() - from,
{
    if from < a.len() {
        assert(a[from].character == b[from].character);
        if a[from].character != c {
            lemma_first_with_same(a, b, c, from + 1);
        }
    }
}

/// A node without children leads nowhere.
proof fn lemma_leaf(n: TrieNode, w: Seq<char>)
    requires
        n.children@.len() == 0,
    ensures
        n.holds(w) == (w.len() == 0 && n.is_end),
{
    if w.len() > 0 {
        assert(first_with(n.children@, w[0], 0) is None);
    }
}

/// Puts the characters of `word` from index `depth` on below `node`.
fn insert(node: &mut TrieNode, word: &Vec<char>, depth: usize)
    requires
        depth <= word@.len(),
        old(node).tidy(),
    ensures
        final(node).tidy(),
        final(node).character == old(node).character,
        final(node).is_root_node == old(node).is_root_node,
        forall|w: Seq<char>| #[trigger]
            final(node).holds(w) <==> (old(node).holds(w) || w == word@.skip(depth as int)),
    decreases word@.len() - depth,
{
    let ghost before = *node;
    let ghost rest = word@.skip(depth as int);
    if depth == word.len() {
        node.is_end = true;
        proof {
            assert(rest.len() == 0);
            assert forall|w: Seq<char>| #[trigger] node.holds(w) <==> (before.holds(w) || w == rest) by {
                if w.len() == 0 {
                    assert(w =~= rest);
                } else {
                    assert(node.child_at(w[0]) == before.child_at(w[0]));
                }
            }
            assert(node.tidy()) by {
                assert(before.tidy());
                assert(node.children@ == before.children@);
            }
        }
        return ;
    }
    let c = word[depth];
    proof {
        assert(rest.len() > 0 && rest[0] == c);
        assert(rest.drop_first() =~= word@.skip(depth + 1));
        lemma_first_with(before.children@, c, 0);
    }
    match node.find_child(c) {
        Some(i) => {
            let ghost old_child = before.children@[i as int];
            assert(old_child.tidy());
            insert(&mut node.children[i], word, depth + 1);
            proof {
                let new_child = node.children@[i as int];
                assert(node.children@ == before.children@.update(i as int, new_child));
                assert forall|x: char| first_with(node.children@, x, 0) == first_with(
                    before.children@,
                    x,
                    0,
                ) by {
                    lemma_first_with_same(node.children@, before.children@, x, 0);
                }
                assert forall|w: Seq<char>| #[trigger] node.holds(w) <==> (before.holds(w) || w == rest) by {
                    if w.len() == 0 {
                    } else if w[0] == c {
                        assert(new_child.holds(w.drop_first()) <==> (old_child.holds(w.drop_first())
                            || w.drop_first() == rest.drop_first()));
                        if w.drop_first() == rest.drop_first() {
                            assert(w =~= seq![w[0]] + w.drop_first());
                            assert(rest =~= seq![rest[0]] + rest.drop_first());
                            assert(w =~= rest);
                        }
                    } else {
                        lemma_first_with(before.children@, w[0], 0);
                    }
                }
                assert(node.tidy()) by {
                    assert(before.tidy());
                    assert(distinct(node.children@));
                    assert forall|j: int| 0 <= j < node.children@.len() implies (
                    #[trigger] node.children@[j]).tidy() by {
                        if j != i {
                            assert(node.children@[j] == before.children@[j]);
                        }
                    }
                }
            }
        },
        None => {
            let mut child = TrieNode::new(c, false);
            let ghost fresh = child;
            insert(&mut child, word, depth + 1);
            node.children.push(child);
            proof {
                assert(node.children@ == before.children@.push(child));
                assert forall|w: Seq<char>| #[trigger] node.holds(w) <==> (before.holds(w) || w == rest) by {
                    if w.len() == 0 {
                    } else {
                        lemma_first_with(before.children@, w[0], 0);
                        lemma_first_with(node.children@, w[0], 0);
                        if w[0] == c {
                            assert(node.children@[before.children@.len() as int].character == c);
                            assert(first_with(node.children@, c, 0) == Some(
                                before.children@.len() as int,
                            ));
                            lemma_leaf(fresh, w.drop_first());
                            assert(child.holds(w.drop_first()) <==> (fresh.holds(w.drop_first())
                                || w.drop_first() == rest.drop_first()));
                            if w.drop_first() == rest.drop_first() {
                                assert(w =~= seq![w[0]] + w.drop_first());
                            assert(rest =~= seq![rest[0]] + rest.drop_first());
                            assert(w =~= rest);
                            }
                        } else {
                            let found = first_with(node.children@, w[0], 0);
                            if found is Some {
                                let j = found->Some_0;
                                assert(j < before.children@.len());
                                assert(node.children@[j] == before.children@[j]);
                                assert(first_with(before.children@, w[0], 0) == Some(j)) by {
                                    lemma_first_with_prefix(
                                        before.children@,
                                        node.children@,
                                        w[0],
                                        0,
                                    );
                                }
                            } else {
                                lemma_first_with_prefix(before.children@, node.children@, w[0], 0);
                            }
                        }
                    }
                }
                assert(node.tidy()) by {
                    assert(before.tidy());
                    assert forall|a: int, b: int| 0 <= a < b < node.children@.len() implies (
                    #[trigger] node.children@[a]).character != (
                    #[trigger] node.children@[b]).character by {
                        if b < before.children@.len() {
                            assert(node.children@[a] == before.children@[a]);
                            assert(node.children@[b] == before.children@[b]);
                        } else {
                            assert(node.children@[a] == before.children@[a]);
                        }
                    }
                    assert forall|j: int| 0 <= j < node.children@.len() implies (
                    #[trigger] node.children@[j]).tidy() by {
                        if j < before.children@.len() {
                            assert(node.children@[j] == before.children@[j]);
                        }
                    }
                }
            }
        },
    }
}

/// Searching a list and searching it with more children at its end agree
/// wherever the shorter list has a child for the character, and where the
/// longer list has none.
proof fn lemma_first_with_prefix(short: Seq<TrieNode>, long: Seq<TrieNode>, c: char, from: int)
    requires
        0 <= from,
        short.len() <= long.len(),
        forall|j: int| 0 <= j < short.len() ==> short[j] == long[j],
    ensures
        first_with(short, c, from) is Some ==> first_with(long, c, from) == first_with(
            short,
            c,
            from,
        ),
        first_with(long, c, from) is None ==> first_with(short, c, from) is None,
        first_with(long, c, from) is Some && first_with(long, c, from)->Some_0 < short.len()
            ==> first_with(short, c, from) == first_with(long, c, from),
    decreases long.len() - from,
{
    if from < short.len() {
        assert(short[from] == long[from]);
        if short[from].character != c {
            lemma_first_with_prefix(short, long, c, from + 1);
        }
    } else if from < long.len() {
        lemma_first_with(long, c, from);
    }
}

/// Searching a list with one child taken out finds, for any other
/// character, the child the full list has for it.
proof fn lemma_first_with_removed(children: Seq<TrieNode>, at: int, x: char)
    requires
        0 <= at < children.len(),
        distinct(children),
        children[at].character != x,
    ensures
        match first_with(children, x, 0) {
            Some(i) => first_with(children.remove(at), x, 0) is Some && children.remove(
                at,
            )[first_with(children.remove(at), x, 0)->Some_0] == children[i],
            None => first_with(children.remove(at), x, 0) is None,
        },
{
    let less = children.remove(at);
    lemma_first_with(children, x, 0);
    lemma_first_with(less, x, 0);
    match first_with(children, x, 0) {
        Some(i) => {
            let k = if i < at {
                i
            } else {
                i - 1
            };
            assert(less[k] == children[i]);
            match first_with(less, x, 0) {
                Some(j) => {
                    let back = if j < at {
                        j
                    } else {
                        j + 1
                    };
                    assert(less[j] == children[back]);
                    if back != i {
                        if back < i {
                            assert(children[back].character != children[i].character);
                        } else {
                            assert(children[i].character != children[back].character);
                        }
                    }
                },
                None => {
                    assert(less[k].character != x);
                },
            }
        },
        None => {
            if first_with(less, x, 0) is Some {
                let j = first_with(less, x, 0)->Some_0;
                let back = if j < at {
                    j
                } else {
                    j + 1
                };
                assert(less[j] == children[back]);
                assert(children[back].character != x);
            }
        },
    }
}

/// Takes the word spelled by the characters of `word` from index `depth`
/// on out from below `node`, and tells whether it was there. A child that
/// is left without purpose is removed.
fn erase(node: &mut TrieNode, word: &Vec<char>, depth: usize) -> (r: bool)
    requires
        depth <= word@.len(),
        old(node).tidy(),
    ensures
        final(node).tidy(),
        final(node).character == old(node).character,
        final(node).is_root_node == old(node).is_root_node,
        r == old(node).holds(word@.skip(depth as int)),
        forall|w: Seq<char>| #[trigger]
            final(node).holds(w) <==> (old(node).holds(w) && w != word@.skip(depth as int)),
    decreases word@.len() - depth,
{
    let ghost before = *node;
    let ghost rest = word@.skip(depth as int);
    if depth == word.len() {
        assert(rest.len() == 0);
        if !node.is_end {
            proof {
                assert forall|w: Seq<char>| #[trigger] node.holds(w) <==> (before.holds(w) && w != rest) by {
                    if w.len() == 0 {
                        assert(w =~= rest);
                    }
                }
            }
            return false;
        }
        node.is_end = false;
        proof {
            assert forall|w: Seq<char>| #[trigger] node.holds(w) <==> (before.holds(w) && w != rest) by {
                if w.len() == 0 {
                    assert(w =~= rest);
                } else {
                    assert(node.child_at(w[0]) == before.child_at(w[0]));
                }
            }
            assert(node.tidy()) by {
                assert(before.tidy());
                assert(node.children@ == before.children@);
            }
        }
        return true;
    }
    let c = word[depth];
    proof {
        assert(rest.len() > 0 && rest[0] == c);
        assert(rest.drop_first() =~= word@.skip(depth + 1));
        lemma_first_with(before.children@, c, 0);
    }
    match node.find_child(c) {
        None => {
            proof {
                assert forall|w: Seq<char>| #[trigger] node.holds(w) <==> (before.holds(w) && w != rest) by {
                    if w == rest {
                        assert(!before.holds(w));
                    }
                }
            }
            false
        },
        Some(i) => {
            let ghost old_child = before.children@[i as int];
            assert(old_child.tidy());
            let deleted = erase(&mut node.children[i], word, depth + 1);
            let ghost mid = *node;
            let ghost new_child = mid.children@[i as int];
            proof {
                assert(mid.children@ == before.children@.update(i as int, new_child));
                assert forall|x: char| first_with(mid.children@, x, 0) == first_with(
                    before.children@,
                    x,
                    0,
                ) by {
                    lemma_first_with_same(mid.children@, before.children@, x, 0);
                }
                assert forall|w: Seq<char>| #[trigger] mid.holds(w) <==> (before.holds(w) && w != rest) by {
                    if w.len() == 0 {
                    } else if w[0] == c {
                        assert(new_child.holds(w.drop_first()) <==> (old_child.holds(w.drop_first())
                            && w.drop_first() != rest.drop_first()));
                        if w.drop_first() == rest.drop_first() {
                            assert(w =~= seq![w[0]] + w.drop_first());
                            assert(rest =~= seq![rest[0]] + rest.drop_first());
                            assert(w =~= rest);
                        }
                    } else {
                        lemma_first_with(before.children@, w[0], 0);
                    }
                }
                assert(mid.tidy()) by {
                    assert(before.tidy());
                    assert(distinct(mid.children@));
                    assert forall|j: int| 0 <= j < mid.children@.len() implies (
                    #[trigger] mid.children@[j]).tidy() by {
                        if j != i {
                            assert(mid.children@[j] == before.children@[j]);
                        }
                    }
                }
            }
            if deleted && node.children[i].can_be_deleted() {
                node.children.remove(i);
                proof {
                    assert(node.children@ == mid.children@.remove(i as int));
                    assert forall|w: Seq<char>| #[trigger] node.holds(w) <==> mid.holds(w) by {
                        if w.len() == 0 {
                        } else if w[0] == c {
                            lemma_leaf(new_child, w.drop_first());
                            lemma_first_with(node.children@, c, 0);
                            if first_with(node.children@, c, 0) is Some {
                                let j = first_with(node.children@, c, 0)->Some_0;
                                let back = if j < i {
                                    j
                                } else {
                                    j + 1
                                };
                                assert(node.children@[j] == mid.children@[back]);
                                if back < i {
                                    assert(mid.children@[back].character != mid.children@[i as int].character);
                                } else {
                                    assert(mid.children@[i as int].character != mid.children@[back].character);
                                }
                            }
                        } else {
                            lemma_first_with_removed(mid.children@, i as int, w[0]);
                        }
                    }
                    assert(node.tidy()) by {
                        assert forall|a: int, b: int| 0 <= a < b < node.children@.len() implies (
                        #[trigger] node.children@[a]).character != (
                        #[trigger] node.children@[b]).character by {
                            let aa = if a < i {
                                a
                            } else {
                                a + 1
                            };
                            let bb = if b < i {
                                b
                            } else {
                                b + 1
                            };
                            assert(node.children@[a] == mid.children@[aa]);
                            assert(node.children@[b] == mid.children@[bb]);
                        }
                        assert forall|j: int| 0 <= j < node.children@.len() implies (
                        #[trigger] node.children@[j]).tidy() by {
                            let jj = if j < i {
                                j
                            } else {
                                j + 1
                            };
                            assert(node.children@[j] == mid.children@[jj]);
                        }
                    }
                }
            }
            deleted
        },
    }
}

/// Following `w` is following its first `k` characters and then the rest.
proof fn lemma_descend_split(node: TrieNode, w: Seq<char>, k: int)
    requires
        0 <= k <= w.len(),
    ensures
        node.descend(w) == (match node.descend(w.take(k)) {
            Some(m) => m.descend(w.skip(k)),
            None => None,
        }),
    decreases k,
{
    if k == 0 {
        assert(w.take(0).len() == 0);
        assert(w.skip(0) =~= w);
    } else {
        assert(w.take(k)[0] == w[0]);
        assert(w.take(k).drop_first() =~= w.drop_first().take(k - 1));
        assert(w.drop_first().skip(k - 1) =~= w.skip(k));
        match node.child_at(w[0]) {
            Some(child) => {
                lemma_descend_split(child, w.drop_first(), k - 1);
            },
            None => {},
        }
    }
}

/// Length of the longest word of `words` that `content` starts with, among
/// the words of at most `n` and at least one character.
pub open spec fn longest_word(words: Set<Seq<char>>, content: Seq<char>, n: int) -> Option<int>
    decreases n,
{
    if n <= 0 {
        None
    } else if n <= content.len() && words.contains(content.take(n)) {
        Some(n)
    } else {
        longest_word(words, content, n - 1)
    }
}

/// Length of the longest word of `words` that starts at index `i` of
/// `content`.
pub open spec fn word_at(words: Set<Seq<char>>, content: Seq<char>, i: int) -> Option<int> {
    longest_word(words, content.skip(i), content.len() - i)
}

/// `content` from index `i` on, with every word found masked by `c`,
/// character for character. Words are looked for from left to right; where
/// several start at one place the longest counts, and the search goes on
/// behind it.
pub open spec fn masked_from(words: Set<Seq<char>>, content: Seq<char>, c: char, i: int) -> Seq<
    char,
>
    decreases content.len() - i,
{
    if i < 0 || i >= content.len() {
        Seq::empty()
    } else {
        match word_at(words, content, i) {
            Some(n) => if n >= 1 && i + n <= content.len() {
                repeat_char(c, n as nat) + masked_from(words, content, c, i + n)
            } else {
                Seq::empty()
            },
            None => seq![content[i]] + masked_from(words, content, c, i + 1),
        }
    }
}

/// `content` from index `i` on, without the words found in it.
pub open spec fn purged_from(words: Set<Seq<char>>, content: Seq<char>, i: int) -> Seq<char>
    decreases content.len() - i,
{
    if i < 0 || i >= content.len() {
        Seq::empty()
    } else {
        match word_at(words, content, i) {
            Some(n) => if n >= 1 && i + n <= content.len() {
                purged_from(words, content, i + n)
            } else {
                Seq::empty()
            },
            None => seq![content[i]] + purged_from(words, content, i + 1),
        }
    }
}

/// The words found in `content` from index `i` on, in order.
pub open spec fn words_from(words: Set<Seq<char>>, content: Seq<char>, i: int) -> Seq<Seq<char>>
    decreases content.len() - i,
{
    if i < 0 || i >= content.len() {
        Seq::empty()
    } else {
        match word_at(words, content, i) {
            Some(n) => if n >= 1 && i + n <= content.len() {
                seq![content.subrange(i, i + n)] + words_from(words, content, i + n)
            } else {
                Seq::empty()
            },
            None => words_from(words, content, i + 1),
        }
    }
}

/// The longest word at the first index, at or after `i`, at which a word
/// of `words` starts in `content`.
pub open spec fn first_word_from(words: Set<Seq<char>>, content: Seq<char>, i: int) -> Option<
    Seq<char>,
>
    decreases content.len() - i,
{
    if i < 0 || i >= content.len() {
        None
    } else {
        match word_at(words, content, i) {
            Some(n) => Some(content.subrange(i, i + n)),
            None => first_word_from(words, content, i + 1),
        }
    }
}

/// A set of words held in a character trie.
pub struct Trie {
    root: TrieNode,
}

impl Trie {
    #[verifier::type_invariant]
    spec fn inv(&self) -> bool {
        self.root.tidy()
    }

    /// The words in the trie.
    pub closed spec fn words(&self) -> Set<Seq<char>> {
        Set::new(|w: Seq<char>| self.root.holds(w))
    }

    /// Creates a trie without words.
    pub fn new() -> (t: Self)
        ensures
            t.words() == Set::<Seq<char>>::empty(),
    {
        let t = Trie { root: TrieNode::new('\0', true) };
        proof {
            assert forall|w: Seq<char>| !t.root.holds(w) by {
                lemma_leaf(t.root, w);
            }
            assert(t.words() =~= Set::<Seq<char>>::empty());
        }
        t
    }

    /// Adds `word` to the trie.
    pub fn add_word(&mut self, word: &str)
        ensures
            final(self).words() == old(self).words().insert(word@),
    {
        proof {
            use_type_invariant(&*self);
        }
        let chars = to_chars(word);
        let mut root = TrieNode::new('\0', true);
        core::mem::swap(&mut self.root, &mut root);
        let ghost before = root;
        insert(&mut root, &chars, 0);
        assert(chars@.skip(0) =~= word@);
        core::mem::swap(&mut self.root, &mut root);
        assert(self.words() =~= old(self).words().insert(word@));
    }

    /// Removes `word` from the trie and tells whether it was there.
    pub fn del_word(&mut self, word: &str) -> (r: bool)
        ensures
            r == old(self).words().contains(word@),
            final(self).words() == old(self).words().remove(word@),
    {
        proof {
            use_type_invariant(&*self);
        }
        let chars = to_chars(word);
        let mut root = TrieNode::new('\0', true);
        core::mem::swap(&mut self.root, &mut root);
        let r = erase(&mut root, &chars, 0);
        assert(chars@.skip(0) =~= word@);
        core::mem::swap(&mut self.root, &mut root);
        assert(self.words() =~= old(self).words().remove(word@));
        r
    }

    /// Length of the longest word that starts at index `start` of `chars`.
    fn longest_at(&self, chars: &Vec<char>, start: usize) -> (r: Option<usize>)
        requires
            start <= chars@.len(),
        ensures
            match r {
                Some(n) => word_at(self.words(), chars@, start as int) == Some(n as int) && 1 <= n
                    && start + n <= chars@.len(),
                None => word_at(self.words(), chars@, start as int) is None,
            },
    {
        let ghost rest = chars@.skip(start as int);
        let ghost words = self.words();
        let len = chars.len();
        let mut current: &TrieNode = &self.root;
        let mut i: usize = start;
        let mut last: Option<usize> = None;
        let mut stuck = false;
        assert(rest.take(0).len() == 0);
        while i < len && !stuck
            invariant
                start <= i <= len,
                len == chars@.len(),
                rest == chars@.skip(start as int),
                words == self.words(),
                !stuck ==> self.root.descend(rest.take(i - start)) == Some(*current),
                stuck ==> i < len && self.root.descend(rest.take(i - start + 1)) is None,
                match last {
                    Some(n) => longest_word(words, rest, i - start) == Some(n as int) && 1 <= n
                        <= i - start,
                    None => longest_word(words, rest, i - start) is None,
                },
            decreases len - i + (if stuck { 0int } else { 1int }),
        {
            let c = chars[i];
            proof {
                let k = i - start;
                let next = rest.take(k + 1);
                lemma_descend_split(self.root, next, k);
                assert(next.take(k) =~= rest.take(k));
                assert(next.skip(k) =~= seq![c]);
                assert(seq![c].drop_first().len() == 0);
            }
            let ghost here = *current;
            proof {
                let k = i - start;
                let next = rest.take(k + 1);
                assert(seq![c][0] == c);
                assert(self.root.descend(next) == here.descend(seq![c]));
                assert(here.descend(seq![c]) == (match here.child_at(c) {
                    Some(child) => child.descend(seq![c].drop_first()),
                    None => None,
                }));
                assert(words.contains(next) == self.root.holds(next));
            }
            match current.find_child(c) {
                Some(j) => {
                    current = &current.children[j];
                    i += 1;
                    assert(here.child_at(c) == Some(*current));
                    assert(self.root.descend(rest.take(i - start)) == Some(*current));
                    if current.is_end {
                        last = Some(i - start);
                    }
                },
                None => {
                    stuck = true;
                },
            }
        }
        proof {
            // nothing longer than what was walked is a word
            let walked = i - start;
            assert forall|n: int| walked < n <= rest.len() implies !words.contains(
                rest.take(n),
            ) by {
                if stuck {
                    lemma_descend_split(self.root, rest.take(n), walked + 1);
                    assert(rest.take(n).take(walked + 1) =~= rest.take(walked + 1));
                }
            }
            lemma_longest_skip(words, rest, rest.len() as int, walked);
        }
        last
    }

    /// Finds the longest word that `content` starts with, and its length in
    /// characters.
    pub fn find_word_at(&self, content: &str) -> (r: Option<(String, usize)>)
        ensures
            match longest_word(self.words(), content@, content@.len() as int) {
                Some(n) => r is Some && r.unwrap().0@ == content@.take(n) && r.unwrap().1 == n,
                None => r is None,
            },
    {
        let chars = to_chars(content);
        assert(chars@.skip(0) =~= chars@);
        match self.longest_at(&chars, 0) {
            Some(n) => {
                let word = string_of_range(&chars, 0, n);
                assert(chars@.subrange(0, n as int) =~= content@.take(n as int));
                Some((word, n))
            },
            None => None,
        }
    }
}

/// When no prefix longer than `k` is a word, the longest word among the
/// prefixes up to `n` is the longest among those up to `k`.
proof fn lemma_longest_skip(words: Set<Seq<char>>, content: Seq<char>, n: int, k: int)
    requires
        0 <= k <= n,
        forall|m: int| k < m <= content.len() ==> !words.contains(#[trigger] content.take(m)),
    ensures
        longest_word(words, content, n) == longest_word(words, content, k),
    decreases n - k,
{
    if n > k {
        lemma_longest_skip(words, content, n - 1, k);
    }
}

impl Trie {
    /// Masks every word found in `content` by `replacement`, character for
    /// character.
    pub fn replace(&self, content: &str, replacement: char) -> (r: String)
        ensures
            r@ == masked_from(self.words(), content@, replacement, 0),
    {
        let chars = to_chars(content);
        let ghost words = self.words();
        let n = chars.len();
        let mut out: Vec<char> = Vec::new();
        let mut i: usize = 0;
        while i < n
            invariant
                i <= n,
                n == chars@.len(),
                chars@ == content@,
                words == self.words(),
                out@ + masked_from(words, chars@, replacement, i as int) == masked_from(
                    words,
                    chars@,
                    replacement,
                    0,
                ),
            decreases n - i,
        {
            let ghost before = out@;
            match self.longest_at(&chars, i) {
                Some(len) => {
                    let fill = repeat(replacement, len);
                    append_chars(&mut out, &fill);
                    i += len;
                    assert(out@ + masked_from(words, chars@, replacement, i as int) =~= before + (
                    repeat_char(replacement, len as nat) + masked_from(
                        words,
                        chars@,
                        replacement,
                        i as int,
                    )));
                },
                None => {
                    out.push(chars[i]);
                    i += 1;
                    assert(out@ + masked_from(words, chars@, replacement, i as int) =~= before + (
                    seq![chars@[i - 1]] + masked_from(words, chars@, replacement, i as int)));
                },
            }
        }
        assert(out@ + Seq::<char>::empty() =~= out@);
        from_chars(&out)
    }

    /// Removes every word found in `content`.
    pub fn filter(&self, content: &str) -> (r: String)
        ensures
            r@ == purged_from(self.words(), content@, 0),
    {
        let chars = to_chars(content);
        let ghost words = self.words();
        let n = chars.len();
        let mut out: Vec<char> = Vec::new();
        let mut i: usize = 0;
        while i < n
            invariant
                i <= n,
                n == chars@.len(),
                chars@ == content@,
                words == self.words(),
                out@ + purged_from(words, chars@, i as int) == purged_from(words, chars@, 0),
            decreases n - i,
        {
            let ghost before = out@;
            match self.longest_at(&chars, i) {
                Some(len) => {
                    i += len;
                },
                None => {
                    out.push(chars[i]);
                    i += 1;
                    assert(out@ + purged_from(words, chars@, i as int) =~= before + (seq![
                        chars@[i - 1],
                    ] + purged_from(words, chars@, i as int)));
                },
            }
        }
        assert(out@ + Seq::<char>::empty() =~= out@);
        from_chars(&out)
    }

    /// Finds the first word in `content`: the longest word at the first
    /// place where a word starts.
    pub fn find_in(&self, content: &str) -> (r: Option<String>)
        ensures
            match first_word_from(self.words(), content@, 0) {
                Some(w) => r is Some && r.unwrap()@ == w,
                None => r is None,
            },
    {
        let chars = to_chars(content);
        let ghost words = self.words();
        let n = chars.len();
        let mut i: usize = 0;
        while i < n
            invariant
                i <= n,
                n == chars@.len(),
                chars@ == content@,
                words == self.words(),
                first_word_from(words, chars@, i as int) == first_word_from(words, chars@, 0),
            decreases n - i,
        {
            match self.longest_at(&chars, i) {
                Some(len) => {
                    return Some(string_of_range(&chars, i, len));
                },
                None => {},
            }
            i += 1;
        }
        None
    }

    /// Finds the first word in `content`, as [`Trie::find_in`] does.
    pub fn validate(&self, content: &str) -> (r: Option<String>)
        ensures
            match first_word_from(self.words(), content@, 0) {
                Some(w) => r is Some && r.unwrap()@ == w,
                None => r is None,
            },
    {
        self.find_in(content)
    }

    /// Finds all words in `content`, from left to right, none overlapping
    /// the one before.
    pub fn find_all(&self, content: &str) -> (r: Vec<String>)
        ensures
            views(r@) == words_from(self.words(), content@, 0),
    {
        let chars = to_chars(content);
        let ghost words = self.words();
        let n = chars.len();
        let mut out: Vec<String> = Vec::new();
        let mut i: usize = 0;
        assert(views(out@) =~= Seq::<Seq<char>>::empty());
        while i < n
            invariant
                i <= n,
                n == chars@.len(),
                chars@ == content@,
                words == self.words(),
                views(out@) + words_from(words, chars@, i as int) == words_from(
                    words,
                    chars@,
                    0,
                ),
            decreases n - i,
        {
            let ghost before = views(out@);
            match self.longest_at(&chars, i) {
                Some(len) => {
                    let word = string_of_range(&chars, i, len);
                    out.push(word);
                    assert(views(out@) =~= before.push(
                        chars@.subrange(i as int, i + len),
                    ));
                    i += len;
                    assert(views(out@) + words_from(words, chars@, i as int)
                        =~= before + (seq![chars@.subrange(i - len, i as int)] + words_from(
                        words,
                        chars@,
                        i as int,
                    )));
                },
                None => {
                    i += 1;
                },
            }
        }
        assert(views(out@) + Seq::<Seq<char>>::empty() =~= views(out@));
        out
    }
}

impl Default for Trie {
    fn default() -> (t: Self)
        ensures
            t.words() == Set::<Seq<char>>::empty(),
    {
        Self::new()
    }
}

} // verus!
