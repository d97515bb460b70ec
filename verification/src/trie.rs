//! A prefix tree over the bytes of its words, so that text in any encoding
//! can be stored. Words are never removed. The nodes stand in one vector, the
//! root at position 0, and each node has one child slot per byte.

use crate::trie_model::TrieShape;
use vstd::prelude::*;
use vstd::string::StringSliceAdditionalSpecFns;

verus! {

/// One node: for each byte the position of the child, or 0 for none, and
/// whether a word ends here.
struct Node {
    next_idx: [usize; 256],
    is_word: bool,
}

/// The prefix tree.
pub struct Trie {
    nodes: Vec<Node>,
}

impl View for Trie {
    type V = Set<Seq<u8>>;

    /// The words that the tree holds, as byte sequences.
    open spec fn view(&self) -> Set<Seq<u8>> {
        self.shape().words()
    }
}

impl Trie {
    /// The tree as plain sequences.
    pub closed spec fn shape(&self) -> TrieShape {
        TrieShape {
            children: Seq::new(self.nodes@.len(), |n: int| self.nodes@[n].next_idx@),
            terminal: Seq::new(self.nodes@.len(), |n: int| self.nodes@[n].is_word),
        }
    }

    /// The invariant of the tree.
    pub open spec fn wf(&self) -> bool {
        self.shape().wf()
    }

    /// A tree that holds no word.
    pub fn new() -> (res: Self)
        ensures
            res.wf(),
            res@ == Set::<Seq<u8>>::empty(),
    {
        let mut res = Self { nodes: Vec::new() };
        res.add_node();
        proof {
            TrieShape::lemma_root_only();
            assert(res.shape().children =~= TrieShape::root_only().children) by {
                assert(res.shape().children[0] =~= TrieShape::root_only().children[0]);
            }
            assert(res.shape().terminal =~= TrieShape::root_only().terminal);
        }
        res
    }

    /// Puts a node without children and without mark at the end of the
    /// vector, and returns its position.
    fn add_node(&mut self) -> (idx: usize)
        ensures
            idx == old(self).nodes@.len(),
            final(self).nodes@.len() == old(self).nodes@.len() + 1,
            forall|n: int| 0 <= n < idx ==> final(self).nodes@[n] == old(self).nodes@[n],
            forall|b: int| 0 <= b < 256 ==> final(self).nodes@[idx as int].next_idx@[b] == 0,
            !final(self).nodes@[idx as int].is_word,
    {
        self.nodes.push(Node { next_idx: [0; 256], is_word: false });
        self.nodes.len() - 1
    }

    /// Adds `word` to the tree.
    pub fn insert(&mut self, word: &str)
        requires
            old(self).wf(),
        ensures
            final(self).wf(),
            final(self)@ == old(self)@.insert(word.spec_bytes()),
    {
        let bytes = word.as_bytes();
        let ghost before = self@;
        let mut curr_idx: usize = 0;
        for i in 0..bytes.len()
            invariant
                bytes@ == word.spec_bytes(),
                self.wf(),
                self@ == before,
                self.shape().walk(bytes@.take(i as int)) == Some(curr_idx as int),
        {
            let chr: u8 = bytes[i];
            let ghost shape = self.shape();
            proof {
                shape.lemma_walk_in_range(bytes@.take(i as int));
                assert(bytes@.take(i + 1).drop_last() =~= bytes@.take(i as int));
                assert(self.nodes@[curr_idx as int].next_idx@ == shape.children[curr_idx as int]);
                assert(shape.child(curr_idx as int, chr) < shape.size());
            }
            if self.nodes[curr_idx].next_idx[chr as usize] == 0 {
                let added = self.add_node();
                self.nodes[curr_idx].next_idx[chr as usize] = added;
                proof {
                    let post = shape.extended(curr_idx as int, chr);
                    assert(self.nodes.len() == shape.size() + 1);
                    shape.lemma_extended_wf(curr_idx as int, chr);
                    shape.lemma_extended_words(curr_idx as int, chr);
                    shape.lemma_extended_walk(curr_idx as int, chr, bytes@.take(i + 1));
                    assert(self.shape().terminal =~= post.terminal);
                    assert(self.shape().children =~= post.children) by {
                        assert forall|n: int| 0 <= n < post.children.len() implies (
                        #[trigger] self.shape().children[n]) =~= post.children[n] by {
                            if n < shape.size() && n != curr_idx {
                                assert(self.shape().children[n] == shape.children[n]);
                            }
                        }
                    }
                }
            }
            curr_idx = self.nodes[curr_idx].next_idx[chr as usize];
        }
        let ghost shape = self.shape();
        proof {
            assert(bytes@.take(bytes@.len() as int) =~= bytes@);
            shape.lemma_walk_in_range(bytes@);
            shape.lemma_marked(bytes@);
        }
        self.nodes[curr_idx].is_word = true;
        proof {
            let post = shape.marked(curr_idx as int);
            assert(self.shape().terminal =~= post.terminal);
            assert(self.shape().children =~= post.children);
        }
        return ;
    }

    /// Whether `text` was added to the tree.
    pub fn search(&self, text: &str) -> (found: bool)
        requires
            self.wf(),
        ensures
            found == self@.contains(text.spec_bytes()),
    {
        let bytes = text.as_bytes();
        let mut curr_idx: usize = 0;
        for i in 0..bytes.len()
            invariant
                bytes@ == text.spec_bytes(),
                self.wf(),
                self.shape().walk(bytes@.take(i as int)) == Some(curr_idx as int),
        {
            let chr: u8 = bytes[i];
            proof {
                self.shape().lemma_walk_in_range(bytes@.take(i as int));
                assert(bytes@.take(i + 1).drop_last() =~= bytes@.take(i as int));
                assert(self.nodes@[curr_idx as int].next_idx@ == self.shape().children[curr_idx as int]);
            }
            let next_idx: usize = self.nodes[curr_idx].next_idx[chr as usize];
            if next_idx == 0 {
                proof {
                    self.shape().lemma_walk_falls_off(bytes@, i + 1);
                }
                return false;
            }
            curr_idx = next_idx;
        }
        proof {
            assert(bytes@.take(bytes@.len() as int) =~= bytes@);
            self.shape().lemma_walk_in_range(bytes@);
        }
        self.nodes[curr_idx].is_word
    }
}

} // verus!
