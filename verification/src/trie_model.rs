//! The mathematical model shared by the prefix trees: nodes in a row, each
//! with one child slot per byte, and the set of words that the tree holds.

use vstd::prelude::*;

verus! {

/// A prefix tree over bytes, as plain sequences. Node 0 is the root. A child
/// slot holds the position of the child, or 0 where there is none (the root is
/// nobody's child).
pub struct TrieShape {
    /// For each node, its 256 child slots.
    pub children: Seq<Seq<usize>>,
    /// For each node, whether a word ends there.
    pub terminal: Seq<bool>,
}

impl TrieShape {
    /// Number of nodes.
    pub open spec fn size(self) -> nat {
        self.children.len()
    }

    /// The slot of `node` for `byte`.
    pub open spec fn child(self, node: int, byte: u8) -> usize {
        self.children[node][byte as int]
    }

    /// There is a root, every node has its 256 slots and its mark, every
    /// slot names a node, and no node is the child of two slots.
    pub open spec fn wf(self) -> bool {
        &&& self.size() >= 1
        &&& self.terminal.len() == self.size()
        &&& forall|n: int| 0 <= n < self.size() ==> (#[trigger] self.children[n]).len() == 256
        &&& forall|n: int, b: u8| 0 <= n < self.size() ==> #[trigger] self.child(n, b) < self.size()
        &&& forall|n1: int, b1: u8, n2: int, b2: u8|
            0 <= n1 < self.size() && 0 <= n2 < self.size() && self.child(n1, b1) != 0
                && #[trigger] self.child(n1, b1) == #[trigger] self.child(n2, b2) ==> n1 == n2
                && b1 == b2
    }

    /// The node that `word` leads to from the root, if the tree has the
    /// whole path.
    pub open spec fn walk(self, word: Seq<u8>) -> Option<int>
        decreases word.len(),
    {
        if word.len() == 0 {
            Some(0)
        } else {
            match self.walk(word.drop_last()) {
                Some(n) => {
                    let c = self.child(n, word.last());
                    if c == 0 {
                        None
                    } else {
                        Some(c as int)
                    }
                },
                None => None,
            }
        }
    }

    /// `word` leads to a node at which a word ends.
    pub open spec fn holds(self, word: Seq<u8>) -> bool {
        match self.walk(word) {
            Some(n) => self.terminal[n],
            None => false,
        }
    }

    /// The words that the tree holds.
    pub open spec fn words(self) -> Set<Seq<u8>> {
        Set::new(|word: Seq<u8>| self.holds(word))
    }

    /// The tree of the root alone, holding no word.
    pub open spec fn root_only() -> Self {
        TrieShape { children: seq![Seq::new(256, |b: int| 0usize)], terminal: seq![false] }
    }

    /// The tree with one more node, without children and without mark, hung
    /// into the slot of `node` for `byte`.
    pub open spec fn extended(self, node: int, byte: u8) -> Self {
        TrieShape {
            children: self.children.push(Seq::new(256, |b: int| 0usize)).update(
                node,
                self.children[node].update(byte as int, self.size() as usize),
            ),
            terminal: self.terminal.push(false),
        }
    }

    /// The tree with a word ending at `node`.
    pub open spec fn marked(self, node: int) -> Self {
        TrieShape { children: self.children, terminal: self.terminal.update(node, true) }
    }

    /// The tree of the root alone is well formed and holds no word.
    pub proof fn lemma_root_only()
        ensures
            Self::root_only().wf(),
            Self::root_only().words() == Set::<Seq<u8>>::empty(),
    {
        let t = Self::root_only();
        assert forall|word: Seq<u8>| !t.holds(word) by {
            t.lemma_walk_in_range(word);
        }
        assert(t.words() =~= Set::<Seq<u8>>::empty());
    }

    /// A walk ends at a node of the tree.
    pub proof fn lemma_walk_in_range(self, word: Seq<u8>)
        requires
            self.wf(),
        ensures
            self.walk(word) matches Some(n) ==> 0 <= n < self.size(),
            self.walk(word) == Some(0int) <==> word.len() == 0,
        decreases word.len(),
    {
        if word.len() > 0 {
            self.lemma_walk_in_range(word.drop_last());
        }
    }

    /// Where a walk falls off the tree, every longer walk does.
    pub proof fn lemma_walk_falls_off(self, word: Seq<u8>, upto: int)
        requires
            0 <= upto <= word.len(),
            self.walk(word.take(upto)).is_none(),
        ensures
            self.walk(word).is_none(),
        decreases word.len() - upto,
    {
        if upto < word.len() {
            assert(word.take(upto + 1).drop_last() =~= word.take(upto));
            self.lemma_walk_falls_off(word, upto + 1);
        } else {
            assert(word.take(upto) =~= word);
        }
    }

    /// Two words that lead to the same node are the same word.
    pub proof fn lemma_walk_injective(self, first: Seq<u8>, second: Seq<u8>)
        requires
            self.wf(),
            self.walk(first).is_some(),
            self.walk(first) == self.walk(second),
        ensures
            first == second,
        decreases first.len(),
    {
        self.lemma_walk_in_range(first);
        self.lemma_walk_in_range(second);
        if first.len() == 0 || second.len() == 0 {
            assert(first =~= second);
        } else {
            self.lemma_walk_in_range(first.drop_last());
            self.lemma_walk_in_range(second.drop_last());
            let before_first = self.walk(first.drop_last()).unwrap();
            let before_second = self.walk(second.drop_last()).unwrap();
            assert(self.child(before_first, first.last()) == self.child(
                before_second,
                second.last(),
            ));
            self.lemma_walk_injective(first.drop_last(), second.drop_last());
            assert(first =~= first.drop_last().push(first.last()));
            assert(second =~= second.drop_last().push(second.last()));
        }
    }

    /// Hanging a new node into an empty slot keeps the tree well formed.
    pub proof fn lemma_extended_wf(self, node: int, byte: u8)
        requires
            self.wf(),
            0 <= node < self.size(),
            self.child(node, byte) == 0,
            self.size() < usize::MAX,
        ensures
            self.extended(node, byte).wf(),
    {
        let post = self.extended(node, byte);
        assert forall|n: int, b: u8| 0 <= n < post.size() implies #[trigger] post.child(n, b)
            == if n == node && b == byte {
            self.size() as usize
        } else if n < self.size() {
            self.child(n, b)
        } else {
            0usize
        } by {}
        assert forall|n: int| 0 <= n < post.size() implies (#[trigger] post.children[n]).len()
            == 256 by {
            if n < self.size() {
                assert(self.children[n].len() == 256);
            }
        }
        assert forall|n1: int, b1: u8, n2: int, b2: u8|
            0 <= n1 < post.size() && 0 <= n2 < post.size() && post.child(n1, b1) != 0
                && #[trigger] post.child(n1, b1) == #[trigger] post.child(n2, b2) implies n1 == n2
            && b1 == b2 by {
            if !(n1 == node && b1 == byte) && !(n2 == node && b2 == byte) {
                assert(self.child(n1, b1) == self.child(n2, b2));
            } else if n1 == node && b1 == byte {
                if !(n2 == node && b2 == byte) && n2 < self.size() {
                    assert(self.child(n2, b2) < self.size());
                }
            } else {
                if n1 < self.size() {
                    assert(self.child(n1, b1) < self.size());
                }
            }
        }
    }

    /// After a new node was hung into an empty slot, a word leads where it led
    /// before; one that fell off the tree still does, or leads to the new
    /// node.
    pub proof fn lemma_extended_walk(self, node: int, byte: u8, word: Seq<u8>)
        requires
            self.wf(),
            0 <= node < self.size(),
            self.child(node, byte) == 0,
            self.size() < usize::MAX,
        ensures
            match self.walk(word) {
                Some(n) => self.extended(node, byte).walk(word) == Some(n),
                None => self.extended(node, byte).walk(word).is_none() || self.extended(
                    node,
                    byte,
                ).walk(word) == Some(self.size() as int),
            },
            word.len() > 0 && self.walk(word.drop_last()) == Some(node) && word.last() == byte
                ==> self.extended(node, byte).walk(word) == Some(self.size() as int),
        decreases word.len(),
    {
        let post = self.extended(node, byte);
        if word.len() > 0 {
            self.lemma_extended_walk(node, byte, word.drop_last());
            self.lemma_walk_in_range(word.drop_last());
            match post.walk(word.drop_last()) {
                Some(n) => {
                    if n < self.size() {
                        assert(post.child(n, word.last()) == if n == node && word.last() == byte {
                            self.size() as usize
                        } else {
                            self.child(n, word.last())
                        });
                    } else {
                        assert(post.child(n, word.last()) == 0);
                    }
                },
                None => {},
            }
        }
    }

    /// Hanging a new node into an empty slot adds no word and loses none.
    pub proof fn lemma_extended_words(self, node: int, byte: u8)
        requires
            self.wf(),
            0 <= node < self.size(),
            self.child(node, byte) == 0,
            self.size() < usize::MAX,
        ensures
            self.extended(node, byte).words() == self.words(),
    {
        let post = self.extended(node, byte);
        assert forall|word: Seq<u8>| post.holds(word) == self.holds(word) by {
            self.lemma_extended_walk(node, byte, word);
            self.lemma_walk_in_range(word);
        }
        assert(post.words() =~= self.words());
    }

    /// Marking the node that a word leads to adds that word and no other.
    pub proof fn lemma_marked(self, word: Seq<u8>)
        requires
            self.wf(),
            self.walk(word).is_some(),
        ensures
            self.marked(self.walk(word).unwrap()).wf(),
            self.marked(self.walk(word).unwrap()).words() == self.words().insert(word),
    {
        let end = self.walk(word).unwrap();
        let post = self.marked(end);
        self.lemma_walk_in_range(word);
        assert forall|n: int, b: u8| post.child(n, b) == self.child(n, b) by {}
        assert forall|other: Seq<u8>| post.holds(other) == (self.holds(other) || other == word) by {
            self.lemma_marked_walk(end, other);
            self.lemma_walk_in_range(other);
            if self.walk(other) == Some(end) {
                self.lemma_walk_injective(other, word);
            }
        }
        assert(post.words() =~= self.words().insert(word));
    }

    /// Marking a node changes no walk.
    pub proof fn lemma_marked_walk(self, node: int, word: Seq<u8>)
        ensures
            self.marked(node).walk(word) == self.walk(word),
        decreases word.len(),
    {
        if word.len() > 0 {
            self.lemma_marked_walk(node, word.drop_last());
        }
    }
}

} // verus!
