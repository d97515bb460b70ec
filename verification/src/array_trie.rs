//! The prefix tree over bytes again, with the child slots of all nodes in one
//! vector and their marks in another.

use crate::trie_model::TrieShape;
use vstd::prelude::*;
use vstd::string::StringSliceAdditionalSpecFns;

verus! {

/// The prefix tree. Node `n` has the child slots `next_idx[n]`, one per byte,
/// holding the position of the child or 0 for none, and the mark
/// `is_word[n]`. The root is node 0.
pub struct ArrayTrie {
    next_idx: Vec<[usize; 256]>,
    is_word: Vec<bool>,
}

impl View for ArrayTrie {
    type V = Set<Seq<u8>>;

    /// The words that the tree holds, as byte sequences.
    open spec fn view(&self) -> Set<Seq<u8>> {
        self.shape().words()
    }
}

impl ArrayTrie {
    /// The tree as plain sequences.
    pub closed spec fn shape(&self) -> TrieShape {
        TrieShape {
            children: Seq::new(self.next_idx@.len(), |n: int| self.next_idx@[n]@),
            terminal: self.is_word@,
        }
    }

    /// The invariant of the tree.
    pub open spec fn wf(&self) -> bool {
        self.shape().wf()
    }

    /// A tree that holds no word.
    pub fn new() -> (res: Self)
        ensures
            res.wf(),
            res@ == Set::<Seq<u8>>::empty(),
    {
        let mut res = Self { next_idx: Vec::new(), is_word: Vec::new() };
        res.add_node();
        proof {
            TrieShape::lemma_root_only();
            assert(res.shape().children =~= TrieShape::root_only().children) by {
                assert(res.shape().children[0] =~= TrieShape::root_only().children[0]);
            }
            assert(res.shape().terminal =~= TrieShape::root_only().terminal);
        }
        res
    }

    /// Puts a node without children and without mark at the end of both
    /// vectors, and returns its position.
    fn add_node(&mut self) -> (idx: usize)
        requires
            old(self).next_idx@.len() == old(self).is_word@.len(),
        ensures
            idx == old(self).is_word@.len(),
            final(self).next_idx@ == old(self).next_idx@.push(final(self).next_idx@[idx as int]),
            forall|b: int| 0 <= b < 256 ==> final(self).next_idx@[idx as int]@[b] == 0,
            final(self).is_word@ == old(self).is_word@.push(false),
    {
        self.next_idx.push([0; 256]);
        self.is_word.push(false);
        self.is_word.len() - 1
    }

    /// Adds `word` to the tree.
    pub fn insert(&mut self, word: &str)
        requires
            old(self).wf(),
        ensures
            final(self).wf(),
            final(self)@ == old(self)@.insert(word.spec_bytes()),
    {
        let bytes = word.as_bytes();
        let ghost before = self@;
        let mut curr_idx: usize = 0;
        for i in 0..bytes.len()
            invariant
                bytes@ == word.spec_bytes(),
                self.wf(),
                self@ == before,
                self.shape().walk(bytes@.take(i as int)) == Some(curr_idx as int),
        {
            let chr: u8 = bytes[i];
            let ghost shape = self.shape();
            proof {
                shape.lemma_walk_in_range(bytes@.take(i as int));
                assert(bytes@.take(i + 1).drop_last() =~= bytes@.take(i as int));
                assert(self.next_idx@[curr_idx as int]@ == shape.children[curr_idx as int]);
                assert(shape.child(curr_idx as int, chr) < shape.size());
            }
            if self.next_idx[curr_idx][chr as usize] == 0 {
                let added = self.add_node();
                self.next_idx[curr_idx][chr as usize] = added;
                proof {
                    let post = shape.extended(curr_idx as int, chr);
                    assert(self.next_idx.len() == shape.size() + 1);
                    shape.lemma_extended_wf(curr_idx as int, chr);
                    shape.lemma_extended_words(curr_idx as int, chr);
                    shape.lemma_extended_walk(curr_idx as int, chr, bytes@.take(i + 1));
                    assert(self.shape().terminal =~= post.terminal);
                    assert(self.shape().children =~= post.children) by {
                        assert forall|n: int| 0 <= n < post.children.len() implies (
                        #[trigger] self.shape().children[n]) =~= post.children[n] by {
                            if n < shape.size() && n != curr_idx {
                                assert(self.shape().children[n] == shape.children[n]);
                            }
                        }
                    }
                }
            }
            curr_idx = self.next_idx[curr_idx][chr as usize];
        }
        let ghost shape = self.shape();
        proof {
            assert(bytes@.take(bytes@.len() as int) =~= bytes@);
            shape.lemma_walk_in_range(bytes@);
            shape.lemma_marked(bytes@);
        }
        self.is_word[curr_idx] = true;
        proof {
            let post = shape.marked(curr_idx as int);
            assert(self.shape().terminal =~= post.terminal);
            assert(self.shape().children =~= post.children);
        }
        return ;
    }

    /// Whether `text` was added to the tree.
    pub fn search(&self, text: &str) -> (found: bool)
        requires
            self.wf(),
        ensures
            found == self@.contains(text.spec_bytes()),
    {
        let bytes = text.as_bytes();
        let mut curr_idx: usize = 0;
        for i in 0..bytes.len()
            invariant
                bytes@ == text.spec_bytes(),
                self.wf(),
                self.shape().walk(bytes@.take(i as int)) == Some(curr_idx as int),
        {
            let chr: u8 = bytes[i];
            proof {
                self.shape().lemma_walk_in_range(bytes@.take(i as int));
                assert(bytes@.take(i + 1).drop_last() =~= bytes@.take(i as int));
                assert(self.next_idx@[curr_idx as int]@ == self.shape().children[curr_idx as int]);
            }
            let next_idx: usize = self.next_idx[curr_idx][chr as usize];
            if next_idx == 0 {
                proof {
                    self.shape().lemma_walk_falls_off(bytes@, i + 1);
                }
                return false;
            }
            curr_idx = next_idx;
        }
        proof {
            assert(bytes@.take(bytes@.len() as int) =~= bytes@);
            self.shape().lemma_walk_in_range(bytes@);
        }
        self.is_word[curr_idx]
    }
}

} // verus!
