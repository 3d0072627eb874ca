//! The text of a prefix tree: a line for every path from the root to a leaf, with the
//! letters of the path, a `*` for a node without a letter and a `'` behind each letter
//! that ends a word.

use vstd::prelude::*;
use crate::text::string_of;
use crate::trie::{Trie, TrieNode};

verus! {

/// A prefix tree as it is walked: for each node its letter, whether it ends a word,
/// and its children in the order of the walk.
pub struct Shape {
    pub letter: Option<char>,
    pub terminal: bool,
    pub children: Seq<Shape>,
}

/// `shape` is the tree below `node`, with the children of each node in some order:
/// each child once, under its letter.
pub open spec fn shape_of(node: TrieNode, shape: Shape) -> bool
    decreases shape,
{
    &&& shape.letter == node.label()
    &&& shape.terminal == node@.contains(Seq::<char>::empty())
    &&& forall|i: int, j: int|
        0 <= i < j < shape.children.len() ==> shape.children[i].letter
            != shape.children[j].letter
    &&& forall|letter: char| #[trigger]
        node.child_at(letter) is Some ==> exists|i: int|
            0 <= i < shape.children.len() && (#[trigger] shape.children[i]).letter == Some(letter)
    &&& forall|i: int|
        0 <= i < shape.children.len() ==> {
            let below = #[trigger] shape.children[i];
            &&& below.letter is Some
            &&& node.child_at(below.letter->0) is Some
            &&& shape_of(node.child_at(below.letter->0)->0, below)
        }
}

/// `count` tabs.
pub open spec fn tabs(count: nat) -> Seq<char> {
    Seq::new(count, |i: int| '\t')
}

/// The start of the text of a node: one tab for a first child, and as many tabs as the
/// node is deep for any other; then the letter, or `*` for none; then `'` where the
/// node ends a word.
pub open spec fn head(shape: Shape, depth: nat, first_child: bool) -> Seq<char> {
    (if first_child {
        tabs(1)
    } else {
        tabs(depth)
    }) + seq![
        match shape.letter {
            Some(letter) => letter,
            None => '*',
        },
    ] + (if shape.terminal {
        seq!['\'']
    } else {
        Seq::<char>::empty()
    })
}

/// The text of a tree: the start of the node, and then the end of the line for a node
/// without children, or else the texts of the children, one level deeper.
pub open spec fn render(shape: Shape, depth: nat, first_child: bool) -> Seq<char>
    decreases shape, 0nat,
{
    if shape.children.len() == 0 {
        head(shape, depth, first_child) + seq!['\n']
    } else {
        head(shape, depth, first_child) + render_first(
            shape.children,
            depth + 1,
            shape.children.len(),
        )
    }
}

/// The texts of the first `count` of the children, in order.
pub open spec fn render_first(children: Seq<Shape>, depth: nat, count: nat) -> Seq<char>
    decreases children, count,
{
    if count == 0 || count > children.len() {
        Seq::<char>::empty()
    } else {
        render_first(children, depth, (count - 1) as nat) + render(
            children[count - 1],
            depth,
            count == 1,
        )
    }
}

impl TrieNode {
    /// Appends the text of the tree below this node to `out`.
    fn display_helper(&self, out: &mut Vec<char>, depth: usize, first_child: bool) -> (shape:
        Ghost<Shape>)
        requires
            depth <= old(out)@.len() + 1,
        ensures
            shape_of(*self, shape@),
            final(out)@ == old(out)@ + render(shape@, depth as nat, first_child),
        decreases self,
    {
        let ghost start = out@;
        if !first_child {
            let mut k: usize = 0;
            while k < depth
                invariant
                    k <= depth,
                    out@ == start + tabs(k as nat),
                decreases depth - k,
            {
                out.push('\t');
                assert(out@ =~= start + tabs((k + 1) as nat));
                k += 1;
            }
        } else {
            out.push('\t');
            assert(out@ =~= start + tabs(1));
        }
        let letter = self.contents();
        out.push(
            match letter {
                Some(c) => c,
                None => '*',
            },
        );
        let terminal = self.is_terminal();
        if terminal {
            out.push('\'');
        }
        let entries = self.children();
        let ghost top = Shape { letter, terminal, children: Seq::empty() };
        assert(out@ =~= start + head(top, depth as nat, first_child));
        if entries.len() == 0 {
            out.push('\n');
            proof {
                assert(out@ =~= start + render(top, depth as nat, first_child));
                assert forall|c: char| self.child_at(c) is None by {
                    if self.child_at(c) is Some {
                        let i = choose|i: int| 0 <= i < entries.len() && (#[trigger] entries[i]).0 == c;
                    }
                }
            }
            return Ghost(top);
        }
        let ghost begun = out@;
        let ghost mut below: Seq<Shape> = Seq::empty();
        let mut index: usize = 0;
        while index < entries.len()
            invariant
                index <= entries.len(),
                depth + 1 <= out@.len(),
                depth <= start.len() + 1,
                below.len() == index,
                out@ == begun + render_first(below, (depth + 1) as nat, index as nat),
                forall|i: int| 0 <= i < index ==> (#[trigger] below[i]).letter == Some(entries[i].0),
                forall|i: int| 0 <= i < index ==> shape_of(*entries[i].1, #[trigger] below[i]),
                forall|i: int|
                    0 <= i < entries.len() ==> decreases_to!(*self => *(#[trigger] entries[i]).1),
                forall|i: int|
                    0 <= i < entries.len() ==> (*entries[i].1).label() == Some(
                        (#[trigger] entries[i]).0,
                    ),
                forall|i: int|
                    0 <= i < entries.len() ==> self.child_at((#[trigger] entries[i]).0) == Some(
                        *entries[i].1,
                    ),
                forall|c: char| #[trigger]
                    self.child_at(c) is Some ==> exists|i: int|
                        0 <= i < entries.len() && (#[trigger] entries[i]).0 == c,
                forall|i: int, j: int|
                    0 <= i < j < entries.len() ==> (#[trigger] entries[i]).0 != (
                    #[trigger] entries[j]).0,
            decreases entries.len() - index,
        {
            let (_, node) = entries[index];
            let ghost so_far = below;
            assert(out@.len() == out.len());
            let shape = node.display_helper(out, depth + 1, index == 0);
            proof {
                below = so_far.push(shape@);
                lemma_render_first_push(so_far, shape@, (depth + 1) as nat);
                assert(node.label() == Some(entries[index as int].0));
            }
            index += 1;
        }
        let ghost whole = Shape { letter, terminal, children: below };
        proof {
            assert(head(whole, depth as nat, first_child) == head(top, depth as nat, first_child));
            assert(out@ =~= start + render(whole, depth as nat, first_child));
            assert forall|i: int| 0 <= i < below.len() implies {
                let under = #[trigger] below[i];
                &&& under.letter is Some
                &&& self.child_at(under.letter->0) is Some
                &&& shape_of(self.child_at(under.letter->0)->0, under)
            } by {
                assert(self.child_at(entries[i].0) == Some(*entries[i].1));
            }
            assert forall|c: char| #[trigger] self.child_at(c) is Some implies exists|i: int|
                0 <= i < below.len() && (#[trigger] below[i]).letter == Some(c) by {
                let i = choose|i: int| 0 <= i < entries.len() && (#[trigger] entries[i]).0 == c;
                assert(below[i].letter == Some(c));
            }
            assert forall|i: int, j: int| 0 <= i < j < below.len() implies below[i].letter
                != below[j].letter by {
                assert(entries[i].0 != entries[j].0);
            }
        }
        Ghost(whole)
    }

    /// The text of the tree below this node, with the children of each node in the
    /// order in which the node holds them.
    pub fn to_string(&self) -> (text: String)
        ensures
            exists|shape: Shape| #[trigger] shape_of(*self, shape) && text@ == render(shape, 1, true),
    {
        let mut out: Vec<char> = Vec::new();
        let shape = self.display_helper(&mut out, 1, true);
        assert(out@ =~= render(shape@, 1, true));
        string_of(&out)
    }
}

/// The text of the children with one more child is the text of the children and then
/// the text of that child.
proof fn lemma_render_first_push(children: Seq<Shape>, next: Shape, depth: nat)
    ensures
        render_first(children.push(next), depth, children.len() + 1) == render_first(
            children,
            depth,
            children.len(),
        ) + render(next, depth, children.len() == 0),
{
    lemma_render_first_prefix(children, children.push(next), depth, children.len());
}

/// The text of the first children is the same in every list that starts with them.
proof fn lemma_render_first_prefix(short: Seq<Shape>, long: Seq<Shape>, depth: nat, count: nat)
    requires
        count <= short.len() <= long.len(),
        forall|i: int| 0 <= i < short.len() ==> short[i] == long[i],
    ensures
        render_first(long, depth, count) == render_first(short, depth, count),
    decreases count,
{
    if count > 0 {
        lemma_render_first_prefix(short, long, depth, (count - 1) as nat);
    }
}

impl Trie {
    /// The text of the dictionary's tree.
    pub fn to_string(&self) -> (text: String)
        ensures
            exists|shape: Shape|
                #[trigger] shape_of(self.root, shape) && text@ == render(shape, 1, true),
    {
        self.root.to_string()
    }
}

} // verus!
