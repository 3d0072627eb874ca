//! A prefix tree over a word list, which finds the words that fit a partially filled
//! pattern.

use vstd::prelude::*;
use rustc_hash::{FxBuildHasher, FxHashMap};
use crate::crossword::EMPTY;
use crate::text::{chars_of, string_of, strings_of};
use crate::wordlist::uppercased;

verus! {

/// The hasher of `rustc_hash`'s maps, carried through as an opaque type.
#[verifier::external_type_specification]
#[verifier::external_body]
pub struct ExFxBuildHasher(FxBuildHasher);

/// A word fits a pattern: they are equally long, and the word has the pattern's letter
/// wherever the pattern is not empty.
pub open spec fn fits_pattern(pattern: Seq<char>, word: Seq<char>) -> bool {
    &&& word.len() == pattern.len()
    &&& forall|i: int|
        0 <= i < pattern.len() ==> #[trigger] pattern[i] == EMPTY || pattern[i] == word[i]
}

/// Some word of the dictionary fits the pattern.
pub open spec fn viable(dict: Set<Seq<char>>, pattern: Seq<char>) -> bool {
    exists|w: Seq<char>| #[trigger] dict.contains(w) && fits_pattern(pattern, w)
}

/// The words of the dictionary that fit the pattern.
pub open spec fn match_set(dict: Set<Seq<char>>, pattern: Seq<char>) -> Set<Seq<char>> {
    Set::new(|w: Seq<char>| dict.contains(w) && fits_pattern(pattern, w))
}

/// `list` holds each word of the dictionary that fits the pattern once, and nothing
/// else.
pub open spec fn is_match_list(
    dict: Set<Seq<char>>,
    pattern: Seq<char>,
    list: Seq<Seq<char>>,
) -> bool {
    &&& list.no_duplicates()
    &&& forall|w: Seq<char>| #[trigger]
        list.contains(w) <==> dict.contains(w) && fits_pattern(pattern, w)
}

/// Every entry of a list of matches is as long as the pattern, has the pattern's letter
/// wherever the pattern is not empty, and is a word of the dictionary.
pub proof fn lemma_matches_fit(
    dict: Set<Seq<char>>,
    pattern: Seq<char>,
    list: Seq<Seq<char>>,
    i: int,
)
    requires
        is_match_list(dict, pattern, list),
        0 <= i < list.len(),
    ensures
        list[i].len() == pattern.len(),
        forall|k: int| 0 <= k < pattern.len() && pattern[k] != EMPTY ==> list[i][k] == pattern[k],
        dict.contains(list[i]),
{
    assert(list.contains(list[i]));
    assert forall|k: int| 0 <= k < pattern.len() && pattern[k] != EMPTY implies list[i][k]
        == pattern[k] by {
        assert(pattern[k] == EMPTY || pattern[k] == list[i][k]);
    }
}

/// A pattern is viable exactly if its list of matches is not empty.
pub proof fn lemma_viable_iff_matches_nonempty(
    dict: Set<Seq<char>>,
    pattern: Seq<char>,
    list: Seq<Seq<char>>,
)
    requires
        is_match_list(dict, pattern, list),
    ensures
        viable(dict, pattern) <==> list.len() > 0,
{
    if viable(dict, pattern) {
        let w = choose|w: Seq<char>| #[trigger] dict.contains(w) && fits_pattern(pattern, w);
        assert(list.contains(w));
    }
    if list.len() > 0 {
        assert(list.contains(list[0]));
    }
}

/// Dictionaries of the same words answer alike: their lists of matches for a pattern
/// hold the same words, and a pattern is viable in both or in neither.
pub proof fn lemma_same_words_same_matches(
    first: Set<Seq<char>>,
    second: Set<Seq<char>>,
    pattern: Seq<char>,
    first_list: Seq<Seq<char>>,
    second_list: Seq<Seq<char>>,
)
    requires
        forall|w: Seq<char>| first.contains(w) <==> second.contains(w),
        is_match_list(first, pattern, first_list),
        is_match_list(second, pattern, second_list),
    ensures
        first_list.to_set() == second_list.to_set(),
        first_list.len() == second_list.len(),
        viable(first, pattern) == viable(second, pattern),
{
    assert forall|w: Seq<char>| first_list.to_set().contains(w) <==> second_list.to_set().contains(
        w,
    ) by {
        assert(first_list.contains(w) <==> second_list.contains(w));
    }
    assert(first_list.to_set() =~= second_list.to_set());
    first_list.unique_seq_to_set();
    second_list.unique_seq_to_set();
    lemma_viable_iff_matches_nonempty(first, pattern, first_list);
    lemma_viable_iff_matches_nonempty(second, pattern, second_list);
}

/// A list of matches has as many entries as there are words that fit.
pub proof fn lemma_match_list_len(dict: Set<Seq<char>>, pattern: Seq<char>, list: Seq<Seq<char>>)
    requires
        is_match_list(dict, pattern, list),
    ensures
        match_set(dict, pattern).finite(),
        list.len() == match_set(dict, pattern).len(),
{
    list.unique_seq_to_set();
    assert(list.to_set() =~= match_set(dict, pattern));
}

/// A word fits a pattern one position at a time.
pub proof fn lemma_matches_step(pattern: Seq<char>, pos: int, word: Seq<char>)
    requires
        0 <= pos < pattern.len(),
        word.len() > 0,
    ensures
        fits_pattern(pattern.skip(pos), word) <==> (pattern[pos] == EMPTY || pattern[pos] == word[0])
            && fits_pattern(pattern.skip(pos + 1), word.drop_first()),
{
    let p = pattern.skip(pos);
    let q = pattern.skip(pos + 1);
    let rest = word.drop_first();
    if fits_pattern(p, word) {
        assert(p[0] == EMPTY || p[0] == word[0]);
        assert forall|i: int| 0 <= i < q.len() implies #[trigger] q[i] == EMPTY || q[i]
            == rest[i] by {
            assert(p[i + 1] == EMPTY || p[i + 1] == word[i + 1]);
        }
    }
    if (pattern[pos] == EMPTY || pattern[pos] == word[0]) && fits_pattern(q, rest) {
        assert forall|i: int| 0 <= i < p.len() implies #[trigger] p[i] == EMPTY || p[i]
            == word[i] by {
            if i > 0 {
                assert(q[i - 1] == EMPTY || q[i - 1] == rest[i - 1]);
            }
        }
    }
}

/// Two words with the same first letter and the same rest are the same word.
proof fn lemma_same_word(a: Seq<char>, b: Seq<char>)
    requires
        a.len() > 0,
        b.len() > 0,
        a[0] == b[0],
        a.drop_first() == b.drop_first(),
    ensures
        a == b,
{
    let ta = a.subrange(1, a.len() as int);
    let tb = b.subrange(1, b.len() as int);
    assert(ta == tb);
    assert(ta.len() == a.len() - 1 && tb.len() == b.len() - 1);
    assert forall|i: int| 0 <= i < a.len() implies a[i] == b[i] by {
        if i > 0 {
            assert(ta[i - 1] == a[i]);
            assert(tb[i - 1] == b[i]);
        }
    }
    assert(a =~= b);
}

/// Each word of `list` behind `prefix`.
pub open spec fn prefixed(prefix: Seq<char>, list: Seq<Seq<char>>) -> Seq<Seq<char>> {
    Seq::new(list.len(), |i: int| prefix + list[i])
}

/// `list` holds each word of the dictionary that fits the pattern and starts with one
/// of `letters` once, and nothing else.
pub open spec fn is_match_list_for(
    dict: Set<Seq<char>>,
    pattern: Seq<char>,
    letters: Set<char>,
    list: Seq<Seq<char>>,
) -> bool {
    &&& list.no_duplicates()
    &&& forall|w: Seq<char>| #[trigger]
        list.contains(w) <==> dict.contains(w) && fits_pattern(pattern, w) && w.len() > 0
            && letters.contains(w[0])
}

/// The matches below a child, each behind the child's letter, are the matches of the
/// node that start with that letter.
proof fn lemma_child_list(
    dict: Set<Seq<char>>,
    below: Set<Seq<char>>,
    pattern: Seq<char>,
    pos: int,
    letter: char,
    list: Seq<Seq<char>>,
)
    requires
        0 <= pos < pattern.len(),
        pattern[pos] == EMPTY || pattern[pos] == letter,
        is_match_list(below, pattern.skip(pos + 1), list),
        forall|w: Seq<char>|
            w.len() > 0 && w[0] == letter ==> (#[trigger] dict.contains(w) <==> below.contains(
                w.drop_first(),
            )),
    ensures
        is_match_list_for(
            dict,
            pattern.skip(pos),
            set![letter],
            prefixed(seq![letter], list),
        ),
{
    let led = prefixed(seq![letter], list);
    let here = pattern.skip(pos);
    assert forall|i: int| 0 <= i < led.len() implies (#[trigger] led[i]).drop_first()
        == list[i] && led[i][0] == letter by {
        assert(led[i].drop_first() =~= list[i]);
    }
    assert forall|i: int, j: int| 0 <= i < led.len() && 0 <= j < led.len() && i != j implies led[i]
        != led[j] by {
        assert(led[i].drop_first() == list[i]);
        assert(led[j].drop_first() == list[j]);
    }
    assert forall|w: Seq<char>| #[trigger]
        led.contains(w) <==> dict.contains(w) && fits_pattern(here, w) && w.len() > 0 && set![
            letter
        ].contains(w[0]) by {
        if led.contains(w) {
            let i = choose|i: int| 0 <= i < led.len() && led[i] == w;
            assert(w.drop_first() == list[i]);
            assert(list.contains(list[i]));
            lemma_matches_step(pattern, pos, w);
        }
        if dict.contains(w) && fits_pattern(here, w) && w.len() > 0 && w[0] == letter {
            lemma_matches_step(pattern, pos, w);
            assert(list.contains(w.drop_first()));
            let i = choose|i: int| 0 <= i < list.len() && list[i] == w.drop_first();
            lemma_same_word(led[i], w);
        }
    }
}

/// Lists of matches for two disjoint sets of first letters make up, one after the
/// other, the list for both sets.
proof fn lemma_join_lists(
    dict: Set<Seq<char>>,
    pattern: Seq<char>,
    first: Set<char>,
    second: Set<char>,
    a: Seq<Seq<char>>,
    b: Seq<Seq<char>>,
)
    requires
        is_match_list_for(dict, pattern, first, a),
        is_match_list_for(dict, pattern, second, b),
        first.disjoint(second),
    ensures
        is_match_list_for(dict, pattern, first + second, a + b),
{
    let all = a + b;
    assert forall|i: int, j: int| 0 <= i < all.len() && 0 <= j < all.len() && i != j implies all[i]
        != all[j] by {
        assert(i < a.len() ==> a.contains(all[i]));
        assert(i >= a.len() ==> b.contains(b[i - a.len()]));
        assert(j < a.len() ==> a.contains(all[j]));
        assert(j >= a.len() ==> b.contains(b[j - a.len()]));
    }
    assert forall|w: Seq<char>| #[trigger]
        all.contains(w) <==> dict.contains(w) && fits_pattern(pattern, w) && w.len() > 0 && (first
            + second).contains(w[0]) by {
        if all.contains(w) {
            let i = choose|i: int| 0 <= i < all.len() && all[i] == w;
            assert(i < a.len() ==> a.contains(w));
            assert(i >= a.len() ==> b[i - a.len()] == w && b.contains(w));
        }
        if a.contains(w) {
            let i = choose|i: int| 0 <= i < a.len() && a[i] == w;
            assert(all[i] == w);
        }
        if b.contains(w) {
            let i = choose|i: int| 0 <= i < b.len() && b[i] == w;
            assert(all[a.len() + i] == w);
        }
    }
}

/// A node of the prefix tree: the letter that leads to it (the root has none), its
/// children by their letters, and whether the letters from the root to it spell a word.
pub struct TrieNode {
    contents: Option<char>,
    children: FxHashMap<char, TrieNode>,
    is_terminal: bool,
}

/// `HashMap::get` on a node's children: the child stored under `letter`, if there is
/// one.
#[verifier::external_body]
fn child_of<'a>(children: &'a FxHashMap<char, TrieNode>, letter: char) -> (r: Option<&'a TrieNode>)
    ensures
        match r {
            Some(node) => children@.contains_key(letter) && children@[letter] == *node,
            None => !children@.contains_key(letter),
        },
{
    children.get(&letter)
}

/// `HashMap::remove` on a node's children: takes out the child stored under `letter`,
/// if there is one, and leaves the others as they are.
#[verifier::external_body]
fn take_child(children: &mut FxHashMap<char, TrieNode>, letter: char) -> (r: Option<TrieNode>)
    ensures
        final(children)@ == old(children)@.remove(letter),
        match r {
            Some(node) => old(children)@.contains_key(letter) && old(children)@[letter] == node,
            None => !old(children)@.contains_key(letter),
        },
{
    children.remove(&letter)
}

/// `HashMap::insert` on a node's children: stores `node` under `letter`, in place of
/// what was there, and leaves the others as they are.
#[verifier::external_body]
fn put_child(children: &mut FxHashMap<char, TrieNode>, letter: char, node: TrieNode)
    ensures
        final(children)@ == old(children)@.insert(letter, node),
{
    children.insert(letter, node);
}

/// `HashMap::iter` on a node's children: every child once, with its letter, in the
/// order in which the map happens to hold them.
#[verifier::external_body]
fn child_entries<'a>(children: &'a FxHashMap<char, TrieNode>) -> (r: Vec<(char, &'a TrieNode)>)
    ensures
        forall|i: int|
            0 <= i < r.len() ==> children@.contains_key((#[trigger] r[i]).0) && children@[r[i].0]
                == *r[i].1,
        forall|i: int, j: int| 0 <= i < j < r.len() ==> (#[trigger] r[i]).0 != (#[trigger] r[j]).0,
        forall|letter: char| #[trigger]
            children@.contains_key(letter) ==> exists|i: int|
                0 <= i < r.len() && (#[trigger] r[i]).0 == letter,
{
    children.iter().map(|(letter, node)| (*letter, node)).collect()
}

/// The letters of the first `k` entries.
spec fn letters_of(entries: Seq<(char, &TrieNode)>, k: int) -> Set<char> {
    Set::new(|c: char| exists|j: int| 0 <= j < k && (#[trigger] entries[j]).0 == c)
}

impl View for TrieNode {
    type V = Set<Seq<char>>;

    /// The words below the node: the letter sequences that lead from it to a node that
    /// ends a word.
    closed spec fn view(&self) -> Set<Seq<char>> {
        Set::new(|w: Seq<char>| self.holds(w))
    }
}

impl TrieNode {
    /// Every child is stored under the letter that leads to it.
    #[verifier::type_invariant]
    spec fn labelled(&self) -> bool {
        forall|letter: char| #[trigger]
            self.children@.contains_key(letter) ==> self.children@[letter].contents == Some(
                letter,
            )
    }

    /// Following the letters of `w` from this node ends at a node that ends a word.
    pub closed spec fn holds(&self, w: Seq<char>) -> bool
        decreases w.len(),
    {
        if w.len() == 0 {
            self.is_terminal
        } else {
            self.children@.contains_key(w[0]) && self.children@[w[0]].holds(w.drop_first())
        }
    }

    /// The letter that leads to this node.
    pub closed spec fn label(&self) -> Option<char> {
        self.contents
    }

    /// The words below a child are the words below the node without their first letter.
    proof fn lemma_child_words(&self, letter: char, node: TrieNode)
        requires
            self.children@.contains_key(letter),
            self.children@[letter] == node,
        ensures
            forall|w: Seq<char>|
                w.len() > 0 && w[0] == letter ==> (#[trigger] self@.contains(w)
                    <==> node@.contains(w.drop_first())),
    {
        assert forall|w: Seq<char>| w.len() > 0 && w[0] == letter implies (#[trigger] self@.contains(
            w,
        ) <==> node@.contains(w.drop_first())) by {
            assert(self@.contains(w) == self.holds(w));
            assert(node@.contains(w.drop_first()) == node.holds(w.drop_first()));
        }
    }

    /// A node without children that ends no word.
    pub fn new(contents: Option<char>) -> (node: TrieNode)
        ensures
            node@ == Set::<Seq<char>>::empty(),
            node.label() == contents,
    {
        let node = TrieNode { contents, children: FxHashMap::default(), is_terminal: false };
        assert forall|w: Seq<char>| !node.holds(w) by {
            assert(!node.children@.contains_key(w[0]));
        }
        assert(node@ =~= Set::<Seq<char>>::empty());
        node
    }

    /// The letter that leads to this node; the root of a tree has none.
    pub fn contents(&self) -> (c: Option<char>)
        ensures
            c == self.label(),
    {
        self.contents
    }

    /// The child under `letter`, if the node has one.
    pub closed spec fn child_at(&self, letter: char) -> Option<TrieNode> {
        if self.children@.contains_key(letter) {
            Some(self.children@[letter])
        } else {
            None
        }
    }

    /// The node with `child` as its child under the letter of `child`, in place of the
    /// child that it had under that letter.
    pub fn insert_child(self, child: TrieNode) -> (node: TrieNode)
        requires
            child.label() is Some,
        ensures
            node.label() == self.label(),
            node@.contains(Seq::<char>::empty()) == self@.contains(Seq::<char>::empty()),
            node.child_at(child.label()->0) == Some(child),
            forall|letter: char|
                letter != child.label()->0 ==> node.child_at(letter) == self.child_at(letter),
            forall|w: Seq<char>|
                w.len() > 0 ==> (#[trigger] node@.contains(w) <==> if w[0] == child.label()->0 {
                    child@.contains(w.drop_first())
                } else {
                    self@.contains(w)
                }),
    {
        proof {
            use_type_invariant(&self);
        }
        let letter = match child.contents {
            Some(letter) => letter,
            None => ' ',
        };
        let TrieNode { contents, children, is_terminal } = self;
        let mut children = children;
        put_child(&mut children, letter, child);
        let node = TrieNode { contents, children, is_terminal };
        proof {
            let empty = Seq::<char>::empty();
            assert(node@.contains(empty) == node.holds(empty));
            assert(self@.contains(empty) == self.holds(empty));
            assert forall|w: Seq<char>| w.len() > 0 implies (#[trigger] node@.contains(w) <==> if w[0]
                == letter {
                child@.contains(w.drop_first())
            } else {
                self@.contains(w)
            }) by {
                assert(node@.contains(w) == node.holds(w));
                assert(self@.contains(w) == self.holds(w));
                assert(child@.contains(w.drop_first()) == child.holds(w.drop_first()));
            }
        }
        node
    }

    /// Whether the letters that lead to this node spell a word.
    pub fn is_terminal(&self) -> (r: bool)
        ensures
            r == self@.contains(Seq::<char>::empty()),
    {
        assert(self@.contains(Seq::<char>::empty()) == self.holds(Seq::<char>::empty()));
        self.is_terminal
    }

    /// The children of this node, each with its letter, in the order in which the node
    /// holds them. The words below a child are the words below the node that start
    /// with the child's letter, without that letter.
    pub fn children(&self) -> (r: Vec<(char, &TrieNode)>)
        ensures
            forall|i: int| 0 <= i < r.len() ==> (*r[i].1).label() == Some((#[trigger] r[i]).0),
            forall|i: int|
                0 <= i < r.len() ==> self.child_at((#[trigger] r[i]).0) == Some(*r[i].1),
            forall|letter: char| #[trigger]
                self.child_at(letter) is Some ==> exists|i: int|
                    0 <= i < r.len() && (#[trigger] r[i]).0 == letter,
            forall|i: int| 0 <= i < r.len() ==> decreases_to!(*self => *(#[trigger] r[i]).1),
            forall|i: int, w: Seq<char>|
                0 <= i < r.len() ==> (#[trigger] (*r[i].1)@.contains(w) <==> self@.contains(
                    seq![r[i].0] + w,
                )),
            forall|i: int, j: int|
                0 <= i < j < r.len() ==> (#[trigger] r[i]).0 != (#[trigger] r[j]).0,
            forall|w: Seq<char>| #[trigger]
                self@.contains(w) && w.len() > 0 ==> exists|i: int|
                    0 <= i < r.len() && (#[trigger] r[i]).0 == w[0],
    {
        let r = child_entries(&self.children);
        proof {
            use_type_invariant(self);
            let letters = Seq::new(r.len() as nat, |i: int| r[i].0);
            vstd::seq_lib::seq_to_set_is_finite(letters);
            assert(self.children@.dom().subset_of(letters.to_set())) by {
                assert forall|letter: char| self.children@.dom().contains(letter) implies letters.to_set().contains(
                    letter,
                ) by {
                    assert(self.children@.contains_key(letter));
                    let i = choose|i: int| 0 <= i < r.len() && (#[trigger] r[i]).0 == letter;
                    assert(letters[i] == letter);
                }
            }
            vstd::set_lib::lemma_len_subset(self.children@.dom(), letters.to_set());
            assert forall|i: int| 0 <= i < r.len() implies decreases_to!(*self => *(#[trigger] r[i]).1) by {
                vstd::std_specs::hash::axiom_hashmap_decreases(self.children);
                vstd::map::axiom_map_index_decreases_finite(self.children@, r[i].0);
            }
            assert forall|i: int, w: Seq<char>| 0 <= i < r.len() implies (#[trigger] (
            *r[i].1)@.contains(w) <==> self@.contains(seq![r[i].0] + w)) by {
                let longer = seq![r[i].0] + w;
                assert(longer.drop_first() =~= w);
                self.lemma_child_words(r[i].0, *r[i].1);
                assert(self@.contains(longer) <==> (*r[i].1)@.contains(longer.drop_first()));
            }
            assert forall|w: Seq<char>| #[trigger] self@.contains(w) && w.len() > 0 implies exists|
                i: int,
            | 0 <= i < r.len() && (#[trigger] r[i]).0 == w[0] by {
                assert(self.holds(w));
            }
        }
        r
    }

    /// Adds the word `chars` below this node.
    pub fn add_sequence(self, chars: &str) -> (node: TrieNode)
        ensures
            node@ == self@.insert(chars@),
            node.label() == self.label(),
    {
        let letters = chars_of(chars);
        let ghost before = self@;
        let node = self.add_from(&letters, 0);
        assert(letters@.skip(0) =~= chars@);
        assert(node@ =~= before.insert(chars@));
        node
    }

    fn add_from(self, letters: &Vec<char>, pos: usize) -> (node: TrieNode)
        requires
            pos <= letters.len(),
        ensures
            forall|w: Seq<char>|
                node.holds(w) <==> self.holds(w) || w == letters@.skip(pos as int),
            node.label() == self.label(),
        decreases letters.len() - pos,
    {
        proof {
            use_type_invariant(&self);
        }
        let ghost suffix = letters@.skip(pos as int);
        let TrieNode { contents, children, is_terminal } = self;
        let mut children = children;
        if pos == letters.len() {
            let node = TrieNode { contents, children, is_terminal: true };
            assert forall|w: Seq<char>| node.holds(w) <==> self.holds(w) || w == suffix by {
                if w.len() == 0 {
                    assert(w =~= suffix);
                }
            }
            node
        } else {
            let letter = letters[pos];
            let below = match take_child(&mut children, letter) {
                Some(child) => child,
                None => TrieNode::new(Some(letter)),
            };
            let grown = below.add_from(letters, pos + 1);
            put_child(&mut children, letter, grown);
            let node = TrieNode { contents, children, is_terminal };
            proof {
                let tail_suffix = letters@.skip(pos + 1);
                assert(suffix.drop_first() =~= tail_suffix);
                assert(suffix[0] == letter);
                assert forall|w: Seq<char>| node.holds(w) <==> self.holds(w) || w == suffix by {
                    if w.len() > 0 && w[0] == letter {
                        let tail = w.drop_first();
                        assert(below@.contains(tail) == below.holds(tail));
                        if tail == tail_suffix {
                            lemma_same_word(w, suffix);
                        }
                    }
                }
            }
            node
        }
    }

    /// Whether some word below this node fits `chars`, an empty cell in which stands for
    /// any letter.
    pub fn is_viable(&self, chars: &Vec<char>) -> (r: bool)
        ensures
            r == viable(self@, chars@),
    {
        assert(chars@.skip(0) =~= chars@);
        self.is_viable_from(chars, 0)
    }

    fn is_viable_from(&self, chars: &Vec<char>, pos: usize) -> (r: bool)
        requires
            pos <= chars.len(),
        ensures
            r == viable(self@, chars@.skip(pos as int)),
        decreases chars.len() - pos,
    {
        let ghost pattern = chars@.skip(pos as int);
        if pos == chars.len() {
            proof {
                let empty = Seq::<char>::empty();
                if self.is_terminal {
                    assert(self@.contains(empty) && fits_pattern(pattern, empty));
                }
                if viable(self@, pattern) {
                    let w = choose|w: Seq<char>| #[trigger]
                        self@.contains(w) && fits_pattern(pattern, w);
                    assert(w =~= empty);
                }
            }
            return self.is_terminal;
        }
        let c = chars[pos];
        if c == EMPTY {
            let entries = child_entries(&self.children);
            let mut k: usize = 0;
            while k < entries.len()
                invariant
                    k <= entries.len(),
                    pos < chars.len(),
                    c == chars@[pos as int],
                    c == EMPTY,
                    pattern == chars@.skip(pos as int),
                    forall|i: int|
                        0 <= i < entries.len() ==> self.children@.contains_key(
                            (#[trigger] entries[i]).0,
                        ) && self.children@[entries[i].0] == *entries[i].1,
                    forall|letter: char| #[trigger]
                        self.children@.contains_key(letter) ==> exists|i: int|
                            0 <= i < entries.len() && (#[trigger] entries[i]).0 == letter,
                    forall|i: int|
                        0 <= i < k ==> !viable(
                            (*(#[trigger] entries[i]).1)@,
                            chars@.skip(pos + 1),
                        ),
                decreases entries.len() - k,
            {
                let (letter, node) = entries[k];
                if node.is_viable_from(chars, pos + 1) {
                    proof {
                        let rest = choose|w: Seq<char>| #[trigger]
                            node@.contains(w) && fits_pattern(chars@.skip(pos + 1), w);
                        let w = seq![letter] + rest;
                        assert(w.drop_first() =~= rest);
                        lemma_matches_step(chars@, pos as int, w);
                        self.lemma_child_words(letter, *node);
                        assert(self@.contains(w) && fits_pattern(pattern, w));
                    }
                    return true;
                }
                k += 1;
            }
            proof {
                if viable(self@, pattern) {
                    let w = choose|w: Seq<char>| #[trigger]
                        self@.contains(w) && fits_pattern(pattern, w);
                    assert(w.len() > 0);
                    lemma_matches_step(chars@, pos as int, w);
                    assert(self.holds(w));
                    let i = choose|i: int| 0 <= i < entries.len() && (#[trigger] entries[i]).0 == w[0];
                    self.lemma_child_words(w[0], *entries[i].1);
                    assert((*entries[i].1)@.contains(w.drop_first()));
                    assert(false);
                }
            }
            false
        } else {
            match child_of(&self.children, c) {
                None => {
                    proof {
                        if viable(self@, pattern) {
                            let w = choose|w: Seq<char>| #[trigger]
                                self@.contains(w) && fits_pattern(pattern, w);
                            assert(w.len() > 0);
                            lemma_matches_step(chars@, pos as int, w);
                            assert(self.holds(w));
                        }
                    }
                    false
                },
                Some(node) => {
                    let r = node.is_viable_from(chars, pos + 1);
                    proof {
                        self.lemma_child_words(c, *node);
                        if r {
                            let rest = choose|w: Seq<char>| #[trigger]
                                node@.contains(w) && fits_pattern(chars@.skip(pos + 1), w);
                            let w = seq![c] + rest;
                            assert(w.drop_first() =~= rest);
                            lemma_matches_step(chars@, pos as int, w);
                            assert(self@.contains(w) && fits_pattern(pattern, w));
                        }
                        if viable(self@, pattern) {
                            let w = choose|w: Seq<char>| #[trigger]
                                self@.contains(w) && fits_pattern(pattern, w);
                            assert(w.len() > 0);
                            lemma_matches_step(chars@, pos as int, w);
                            assert(node@.contains(w.drop_first()));
                        }
                    }
                    r
                },
            }
        }
    }

    /// Appends to `result` the words below this node that fit `pattern` from `pos` on,
    /// each once and each behind the letters in `partial`. What was appended is
    /// returned as a list of the words without those letters.
    fn words(
        &self,
        pattern: &Vec<char>,
        pos: usize,
        partial: &mut Vec<char>,
        result: &mut Vec<String>,
    ) -> (added: Ghost<Seq<Seq<char>>>)
        requires
            pos <= pattern.len(),
        ensures
            final(partial)@ == old(partial)@,
            is_match_list(self@, pattern@.skip(pos as int), added@),
            strings_of(final(result)@) == strings_of(old(result)@) + prefixed(
                old(partial)@,
                added@,
            ),
        decreases pattern.len() - pos,
    {
        let ghost prefix = partial@;
        let ghost before = strings_of(result@);
        let ghost here = pattern@.skip(pos as int);
        let ghost none = Seq::<Seq<char>>::empty();
        let ghost empty = Seq::<char>::empty();
        if pos == pattern.len() {
            if self.is_terminal {
                let word = string_of(partial);
                result.push(word);
                let ghost list = seq![empty];
                proof {
                    assert(prefix + empty =~= prefix);
                    assert(strings_of(result@) =~= before + prefixed(prefix, list));
                    assert(self@.contains(empty) && fits_pattern(here, empty));
                    assert forall|w: Seq<char>| #[trigger]
                        list.contains(w) <==> self@.contains(w) && fits_pattern(here, w) by {
                        if self@.contains(w) && fits_pattern(here, w) {
                            assert(w =~= empty);
                            assert(list[0] == w);
                        }
                    }
                }
                return Ghost(list);
            } else {
                proof {
                    assert(strings_of(result@) =~= before + prefixed(prefix, none));
                    assert forall|w: Seq<char>| #[trigger]
                        none.contains(w) <==> self@.contains(w) && fits_pattern(here, w) by {
                        if self@.contains(w) && fits_pattern(here, w) {
                            assert(w =~= empty);
                        }
                    }
                }
                return Ghost(none);
            }
        }
        let c = pattern[pos];
        if c == EMPTY {
            let entries = child_entries(&self.children);
            let mut k: usize = 0;
            let ghost mut list = none;
            proof {
                assert(strings_of(result@) =~= before + prefixed(prefix, list));
                assert(letters_of(entries@, 0) =~= Set::<char>::empty());
            }
            while k < entries.len()
                invariant
                    k <= entries.len(),
                    pos < pattern.len(),
                    c == pattern@[pos as int],
                    c == EMPTY,
                    here == pattern@.skip(pos as int),
                    partial@ == prefix,
                    strings_of(result@) == before + prefixed(prefix, list),
                    is_match_list_for(self@, here, letters_of(entries@, k as int), list),
                    forall|i: int|
                        0 <= i < entries.len() ==> self.children@.contains_key(
                            (#[trigger] entries[i]).0,
                        ) && self.children@[entries[i].0] == *entries[i].1,
                    forall|i: int, j: int|
                        0 <= i < j < entries.len() ==> (#[trigger] entries[i]).0 != (
                        #[trigger] entries[j]).0,
                decreases entries.len() - k,
            {
                let (letter, node) = entries[k];
                let ghost mid = strings_of(result@);
                partial.push(letter);
                let below = node.words(pattern, pos + 1, partial, result);
                partial.pop();
                proof {
                    let led = prefixed(seq![letter], below@);
                    let longer = prefix.push(letter);
                    assert(partial@ =~= prefix);
                    self.lemma_child_words(letter, *node);
                    lemma_child_list(self@, node@, pattern@, pos as int, letter, below@);
                    let done = letters_of(entries@, k as int);
                    assert(done.disjoint(set![letter])) by {
                        if done.contains(letter) {
                            let j = choose|j: int| 0 <= j < k && (#[trigger] entries[j]).0 == letter;
                            assert(entries[j].0 != entries[k as int].0);
                        }
                    }
                    lemma_join_lists(self@, here, done, set![letter], list, led);
                    assert(letters_of(entries@, k + 1) =~= done + set![letter]) by {
                        assert forall|x: char|
                            letters_of(entries@, k + 1).contains(x) <==> done.contains(x) || x
                                == letter by {
                            if letters_of(entries@, k + 1).contains(x) {
                                let j = choose|j: int|
                                    0 <= j < k + 1 && (#[trigger] entries[j]).0 == x;
                                if j < k {
                                    assert(done.contains(x));
                                }
                            }
                            if done.contains(x) {
                                let j = choose|j: int| 0 <= j < k && (#[trigger] entries[j]).0 == x;
                                assert(0 <= j < k + 1 && entries[j].0 == x);
                            }
                            if x == letter {
                                assert(entries[k as int].0 == x);
                            }
                        }
                    }
                    assert(prefixed(longer, below@) =~= prefixed(prefix, led)) by {
                        assert forall|i: int| 0 <= i < below@.len() implies longer + below@[i]
                            == prefix + led[i] by {
                            assert(longer + below@[i] =~= prefix + (seq![letter] + below@[i]));
                        }
                    }
                    assert(mid + prefixed(prefix, led) =~= before + prefixed(prefix, list + led));
                    list = list + led;
                }
                k += 1;
            }
            proof {
                let all = letters_of(entries@, entries.len() as int);
                assert forall|w: Seq<char>| #[trigger]
                    list.contains(w) <==> self@.contains(w) && fits_pattern(here, w) by {
                    if self@.contains(w) && fits_pattern(here, w) {
                        assert(w.len() > 0);
                        assert(self.holds(w));
                        let j = choose|j: int|
                            0 <= j < entries.len() && (#[trigger] entries[j]).0 == w[0];
                        assert(all.contains(w[0]));
                    }
                }
            }
            Ghost(list)
        } else {
            match child_of(&self.children, c) {
                None => {
                    proof {
                        assert(strings_of(result@) =~= before + prefixed(prefix, none));
                        assert forall|w: Seq<char>| #[trigger]
                            none.contains(w) <==> self@.contains(w) && fits_pattern(here, w) by {
                            if self@.contains(w) && fits_pattern(here, w) {
                                assert(w.len() > 0);
                                lemma_matches_step(pattern@, pos as int, w);
                                assert(self.holds(w));
                            }
                        }
                    }
                    Ghost(none)
                },
                Some(node) => {
                    partial.push(c);
                    let below = node.words(pattern, pos + 1, partial, result);
                    partial.pop();
                    let ghost led = prefixed(seq![c], below@);
                    proof {
                        let longer = prefix.push(c);
                        assert(partial@ =~= prefix);
                        self.lemma_child_words(c, *node);
                        lemma_child_list(self@, node@, pattern@, pos as int, c, below@);
                        assert forall|w: Seq<char>| #[trigger]
                            led.contains(w) <==> self@.contains(w) && fits_pattern(here, w) by {
                            if self@.contains(w) && fits_pattern(here, w) {
                                assert(w.len() > 0);
                                lemma_matches_step(pattern@, pos as int, w);
                                assert(set![c].contains(w[0]));
                            }
                        }
                        assert(prefixed(longer, below@) =~= prefixed(prefix, led)) by {
                            assert forall|i: int| 0 <= i < below@.len() implies longer + below@[i]
                                == prefix + led[i] by {
                                assert(longer + below@[i] =~= prefix + (seq![c] + below@[i]));
                            }
                        }
                    }
                    Ghost(led)
                },
            }
        }
    }
}

/// A dictionary: a prefix tree over its words.
pub struct Trie {
    pub root: TrieNode,
}

impl View for Trie {
    type V = Set<Seq<char>>;

    /// The words of the dictionary.
    open spec fn view(&self) -> Set<Seq<char>> {
        self.root@
    }
}

impl Trie {
    /// The dictionary of the given words, each in upper case. Its root has no letter.
    pub fn build(words: Vec<String>) -> (trie: Trie)
        ensures
            forall|w: Seq<char>| trie@.contains(w) <==> uppercased(strings_of(words@)).contains(w),
            trie.root.label() is None,
    {
        let upper = Trie::make_words_uppercase(words);
        let ghost all = strings_of(upper@);
        let mut root = TrieNode::new(None);
        let mut i: usize = 0;
        while i < upper.len()
            invariant
                i <= upper.len(),
                all == strings_of(upper@),
                root.label() is None,
                forall|w: Seq<char>| root@.contains(w) <==> all.take(i as int).contains(w),
            decreases upper.len() - i,
        {
            let ghost before = all.take(i as int);
            root = root.add_sequence(upper[i].as_str());
            proof {
                let after = all.take(i + 1);
                assert(after =~= before.push(upper@[i as int]@));
                assert forall|w: Seq<char>| root@.contains(w) <==> after.contains(w) by {
                    if before.contains(w) {
                        let j = choose|j: int| 0 <= j < before.len() && before[j] == w;
                        assert(after[j] == w);
                    }
                    if w == upper@[i as int]@ {
                        assert(after[i as int] == w);
                    }
                    if after.contains(w) {
                        let j = choose|j: int| 0 <= j < after.len() && after[j] == w;
                        if j < i {
                            assert(before[j] == w);
                        }
                    }
                }
            }
            i += 1;
        }
        assert(all.take(upper.len() as int) =~= all);
        Trie { root }
    }

    /// The words of the dictionary that fit `pattern`, an empty cell in which stands for
    /// any letter. Each such word comes once; the order is that in which the tree holds
    /// them.
    pub fn words(&self, pattern: &Vec<char>) -> (result: Vec<String>)
        ensures
            is_match_list(self@, pattern@, strings_of(result@)),
    {
        let mut result: Vec<String> = Vec::new();
        let mut partial: Vec<char> = Vec::new();
        let added = self.root.words(pattern, 0, &mut partial, &mut result);
        proof {
            let empty = Seq::<char>::empty();
            assert(pattern@.skip(0) =~= pattern@);
            assert(prefixed(empty, added@) =~= added@) by {
                assert forall|i: int| 0 <= i < added@.len() implies empty + added@[i]
                    == added@[i] by {
                    assert(empty + added@[i] =~= added@[i]);
                }
            }
            assert(strings_of(result@) =~= added@);
        }
        result
    }

    /// Whether some word of the dictionary fits `chars`, an empty cell in which stands
    /// for any letter.
    pub fn is_viable(&self, chars: &Vec<char>) -> (r: bool)
        ensures
            r == viable(self@, chars@),
    {
        self.root.is_viable(chars)
    }
}

} // verus!
