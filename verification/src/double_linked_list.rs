//! Doubly linked lists whose nodes live in a shared arena: every node knows
//! the slot of its successor and of its predecessor. A list knows the slot of
//! its dummy head; the items follow it.

use vstd::prelude::*;

verus! {

/// One node: its item, none for a dummy head, and both of its links.
pub struct Node<T> {
    data: Option<T>,
    next_idx: Option<usize>,
    prev_idx: Option<usize>,
}

impl<T> Node<T> {
    /// The item, if the node holds one.
    pub closed spec fn item(&self) -> Option<T> {
        self.data
    }

    /// The slot of the successor, if there is one.
    pub closed spec fn next(&self) -> Option<usize> {
        self.next_idx
    }

    /// The slot of the predecessor, if there is one.
    pub closed spec fn prev(&self) -> Option<usize> {
        self.prev_idx
    }

    /// The item, if the node holds one.
    pub fn data(&self) -> (data: &Option<T>)
        ensures
            *data == self.item(),
    {
        &self.data
    }

    /// The slot of the successor, if there is one.
    pub fn next_idx(&self) -> (slot: Option<usize>)
        ensures
            slot == self.next(),
    {
        self.next_idx
    }

    /// The slot of the predecessor, if there is one.
    pub fn prev_idx(&self) -> (slot: Option<usize>)
        ensures
            slot == self.prev(),
    {
        self.prev_idx
    }
}

/// The arena: the nodes, and their number.
pub struct ArenaList<T> {
    pub nodes: Vec<Node<T>>,
    pub len: usize,
}

/// A list in an arena that it borrows exclusively.
pub struct DoubleLinkedList<'a, T> {
    pub root_idx: usize,
    owner: &'a mut ArenaList<T>,
    chain: Ghost<Seq<usize>>,
}

/// `link` unless it points to `gone`, in which case there is none.
pub open spec fn cut(link: Option<usize>, gone: usize) -> Option<usize> {
    if link == Some(gone) {
        None
    } else {
        link
    }
}

/// `link`, pointing to `to` if it pointed to `from`.
pub open spec fn redirected(link: Option<usize>, from: usize, to: usize) -> Option<usize> {
    if link == Some(from) {
        Some(to)
    } else {
        link
    }
}

impl<T> ArenaList<T> {
    /// The counter agrees with the number of nodes.
    pub open spec fn wf(&self) -> bool {
        self.len == self.nodes@.len()
    }

    /// The successor of the node in slot `i`, if it has one, is another node
    /// of the arena and names slot `i` as its predecessor.
    pub open spec fn next_ok(&self, i: int) -> bool {
        self.nodes@[i].next() matches Some(j) ==> j < self.nodes@.len() && j != i
            && self.nodes@[j as int].prev() == Some(i as usize)
    }

    /// The predecessor of the node in slot `i`, if it has one, is another
    /// node of the arena and names slot `i` as its successor.
    pub open spec fn prev_ok(&self, i: int) -> bool {
        self.nodes@[i].prev() matches Some(j) ==> j < self.nodes@.len() && j != i
            && self.nodes@[j as int].next() == Some(i as usize)
    }

    /// Every link names a node other than the one it starts from, and the
    /// links are mutual.
    pub open spec fn linked(&self) -> bool {
        &&& forall|i: int| 0 <= i < self.nodes@.len() ==> #[trigger] self.next_ok(i)
        &&& forall|i: int| 0 <= i < self.nodes@.len() ==> #[trigger] self.prev_ok(i)
    }

    /// Slot `i` of `chain` is a node of the arena, its successor is slot
    /// `i + 1` of the chain, or none if it is the last, and unless it is the
    /// head it holds an item.
    pub open spec fn slot_ok(&self, chain: Seq<usize>, i: int) -> bool {
        &&& chain[i] < self.nodes@.len()
        &&& self.nodes@[chain[i] as int].next() == if i + 1 < chain.len() {
            Some(chain[i + 1])
        } else {
            None
        }
        &&& i >= 1 ==> self.nodes@[chain[i] as int].item() is Some
    }

    /// `chain` is a list in this arena: it starts at the dummy head `root`,
    /// no slot occurs twice in it, and each of its slots is in order.
    pub open spec fn holds_list(&self, root: usize, chain: Seq<usize>) -> bool {
        &&& chain.len() >= 1
        &&& chain[0] == root
        &&& chain.no_duplicates()
        &&& forall|i: int| 0 <= i < chain.len() ==> #[trigger] self.slot_ok(chain, i)
    }

    /// Every slot of `chain` but the head names the slot before it as its
    /// predecessor.
    pub open spec fn back_linked(&self, chain: Seq<usize>) -> bool {
        forall|i: int|
            1 <= i < chain.len() ==> self.nodes@[#[trigger] chain[i] as int].prev() == Some(
                chain[i - 1],
            )
    }

    /// The items of the list `chain`, in order.
    pub open spec fn items(&self, chain: Seq<usize>) -> Seq<T> {
        Seq::new((chain.len() - 1) as nat, |i: int| self.nodes@[chain[i + 1] as int].item().unwrap())
    }

    /// An arena without nodes.
    pub fn new() -> (res: Self)
        ensures
            res.wf(),
            res.linked(),
            res.nodes@.len() == 0,
    {
        Self { nodes: Vec::new(), len: 0 }
    }

    /// Removes the nodes. The counter stays as it is.
    pub fn clear(&mut self)
        ensures
            final(self).nodes@.len() == 0,
            final(self).len == old(self).len,
    {
        self.nodes.clear();
    }

    /// Puts a node without links at the end and returns its slot.
    pub fn add_node(&mut self, data: Option<T>) -> (idx: usize)
        requires
            old(self).wf(),
        ensures
            final(self).wf(),
            idx == old(self).nodes@.len(),
            final(self).nodes@.len() == old(self).nodes@.len() + 1,
            forall|i: int| 0 <= i < idx ==> final(self).nodes@[i] == old(self).nodes@[i],
            final(self).nodes@[idx as int].item() == data,
            final(self).nodes@[idx as int].next().is_none(),
            final(self).nodes@[idx as int].prev().is_none(),
            old(self).linked() ==> final(self).linked(),
    {
        self.nodes.push(Node { data, next_idx: None, prev_idx: None });
        proof {
            assert(self.nodes.len() == old(self).nodes@.len() + 1);
        }
        self.len += 1;
        proof {
            if old(self).linked() {
                assert forall|i: int| 0 <= i < self.nodes@.len() implies #[trigger] self.next_ok(
                    i,
                ) by {
                    if i < old(self).nodes@.len() {
                        assert(old(self).next_ok(i));
                    }
                }
                assert forall|i: int| 0 <= i < self.nodes@.len() implies #[trigger] self.prev_ok(
                    i,
                ) by {
                    if i < old(self).nodes@.len() {
                        assert(old(self).prev_ok(i));
                    }
                }
            }
        }
        self.len - 1
    }

    /// Makes `dst_idx` the successor of `src_idx`, and `src_idx` the
    /// predecessor of `dst_idx`.
    pub fn add_link(&mut self, src_idx: usize, dst_idx: usize)
        requires
            src_idx < old(self).nodes@.len(),
            dst_idx < old(self).nodes@.len(),
        ensures
            final(self).len == old(self).len,
            final(self).nodes@.len() == old(self).nodes@.len(),
            forall|i: int|
                0 <= i < final(self).nodes@.len() ==> (#[trigger] final(self).nodes@[i]).item()
                    == old(self).nodes@[i].item() && final(self).nodes@[i].next() == if i
                    == src_idx {
                    Some(dst_idx)
                } else {
                    old(self).nodes@[i].next()
                } && final(self).nodes@[i].prev() == if i == dst_idx {
                    Some(src_idx)
                } else {
                    old(self).nodes@[i].prev()
                },
    {
        self.nodes[src_idx].next_idx = Some(dst_idx);
        self.nodes[dst_idx].prev_idx = Some(src_idx);
    }

    /// Where the node that stands in slot `k` after slot `idx` was vacated
    /// stood before: the last node was moved into the vacated slot, every
    /// other node stayed.
    pub open spec fn origin(&self, idx: usize, k: int) -> int {
        if k == idx {
            self.nodes@.len() - 1
        } else {
            k
        }
    }

    /// `self` is `pre` without the node in slot `idx`: the last node has
    /// taken that slot, every link that pointed to the deleted node is gone,
    /// and every link that pointed to the last node points to its new slot.
    /// The list that the deleted node was in is cut in two at its place.
    pub open spec fn is_removal_of(&self, pre: &Self, idx: usize) -> bool {
        let last = (pre.nodes@.len() - 1) as usize;
        &&& self.nodes@.len() == last
        &&& forall|k: int|
            0 <= k < last ==> (#[trigger] self.nodes@[k]).item() == pre.nodes@[pre.origin(
                idx,
                k,
            )].item() && self.nodes@[k].next() == redirected(
                cut(pre.nodes@[pre.origin(idx, k)].next(), idx),
                last,
                idx,
            ) && self.nodes@[k].prev() == redirected(
                cut(pre.nodes@[pre.origin(idx, k)].prev(), idx),
                last,
                idx,
            )
    }

    /// Deletes the node in slot `idx`, which must have a predecessor, and
    /// says whether there was such a slot. The last node is moved into the
    /// slot, and the links of its neighbours follow it. The counter is taken
    /// down only if a node was moved.
    pub fn del_node(&mut self, idx: usize) -> (deleted: bool)
        requires
            old(self).wf(),
            old(self).linked(),
            idx < old(self).nodes@.len() ==> old(self).nodes@[idx as int].prev() is Some,
        ensures
            deleted == (idx < old(self).nodes@.len()),
            deleted ==> final(self).is_removal_of(old(self), idx) && final(self).linked(),
            !deleted ==> *final(self) == *old(self),
            final(self).len == if deleted && idx + 1 < old(self).nodes@.len() {
                (old(self).len - 1) as usize
            } else {
                old(self).len
            },
    {
        if idx >= self.nodes.len() {
            return false;
        }
        let ghost pre = *self;
        let last_idx: usize = self.nodes.len() - 1;

        let node_to_del = self.nodes.swap_remove(idx);
        let ghost moved: Seq<Node<T>> = self.nodes@;
        proof {
            assert forall|k: int| 0 <= k < last_idx implies #[trigger] moved[k]
                == pre.nodes@[pre.origin(idx, k)] by {}
            assert(pre.nodes@[idx as int].next() == node_to_del.next_idx);
            assert(pre.next_ok(idx as int));
            assert(pre.prev_ok(idx as int));
            assert(pre.next_ok(last_idx as int));
            assert(pre.prev_ok(last_idx as int));
        }

        // The predecessor no longer points to the deleted node,
        match node_to_del.prev_idx {
            None => {
                proof {
                    assert(false);
                }
            },
            Some(prev_idx) => {
                if prev_idx == last_idx {
                    // which may be the node that was moved into the slot,
                    self.nodes[idx].next_idx = None;
                } else {
                    self.nodes[prev_idx].next_idx = None;
                }
            },
        }
        let ghost forward_cut: Seq<Node<T>> = self.nodes@;
        proof {
            assert forall|k: int| 0 <= k < last_idx implies (#[trigger] forward_cut[k]).item()
                == moved[k].item() && forward_cut[k].prev() == moved[k].prev()
                && forward_cut[k].next() == cut(moved[k].next(), idx) by {
                let o = pre.origin(idx, k);
                assert(moved[k] == pre.nodes@[o]);
                assert(pre.next_ok(o));
                assert(pre.prev_ok(o));
            }
        }

        // and the successor no longer points back to it.
        match node_to_del.next_idx {
            None => {},
            Some(next_idx) => {
                if next_idx == last_idx {
                    self.nodes[idx].prev_idx = None;
                } else {
                    self.nodes[next_idx].prev_idx = None;
                }
            },
        }
        let ghost detached: Seq<Node<T>> = self.nodes@;
        proof {
            assert forall|k: int| 0 <= k < last_idx implies (#[trigger] detached[k]).item()
                == moved[k].item() && detached[k].next() == cut(moved[k].next(), idx)
                && detached[k].prev() == cut(moved[k].prev(), idx) by {
                let o = pre.origin(idx, k);
                assert(moved[k] == pre.nodes@[o]);
                assert(forward_cut[k].item() == moved[k].item());
                assert(pre.next_ok(o));
                assert(pre.prev_ok(o));
            }
        }

        if idx == last_idx {
            proof {
                assert forall|k: int| 0 <= k < last_idx implies (#[trigger] self.nodes@[k]).item()
                    == pre.nodes@[pre.origin(idx, k)].item() && self.nodes@[k].next() == redirected(
                    cut(pre.nodes@[pre.origin(idx, k)].next(), idx),
                    last_idx,
                    idx,
                ) && self.nodes@[k].prev() == redirected(
                    cut(pre.nodes@[pre.origin(idx, k)].prev(), idx),
                    last_idx,
                    idx,
                ) by {
                    assert(detached[k].item() == moved[k].item());
                }
                self.lemma_removal_linked(&pre, idx);
            }
            return true;
        }
        // The neighbours of the moved node point to its new slot.

        match self.nodes[idx].prev_idx {
            None => {},
            Some(prev_idx) => {
                proof {
                    assert(detached[idx as int].prev() == cut(moved[idx as int].prev(), idx));
                    assert(pre.nodes@[last_idx as int].prev() == Some(prev_idx));
                }
                if prev_idx == last_idx {
                    self.nodes[idx].next_idx = Some(idx);
                } else {
                    self.nodes[prev_idx].next_idx = Some(idx);
                }
            },
        }
        let ghost forwarded: Seq<Node<T>> = self.nodes@;
        proof {
            assert forall|k: int| 0 <= k < last_idx implies (#[trigger] forwarded[k]).item()
                == detached[k].item() && forwarded[k].prev() == detached[k].prev()
                && forwarded[k].next() == redirected(detached[k].next(), last_idx, idx) by {
                let o = pre.origin(idx, k);
                assert(moved[k] == pre.nodes@[o]);
                assert(detached[k].next() == cut(moved[k].next(), idx));
                assert(detached[idx as int].prev() == cut(moved[idx as int].prev(), idx));
                assert(pre.next_ok(o));
                assert(pre.prev_ok(o));
                assert(pre.next_ok(last_idx as int));
                assert(pre.prev_ok(last_idx as int));
            }
        }

        match self.nodes[idx].next_idx {
            None => {},
            Some(next_idx) => {
                proof {
                    assert(forwarded[idx as int].next() == redirected(
                        detached[idx as int].next(),
                        last_idx,
                        idx,
                    ));
                    assert(detached[idx as int].next() == cut(moved[idx as int].next(), idx));
                    assert(pre.nodes@[last_idx as int].next() == Some(next_idx));
                }
                if next_idx == last_idx {
                    self.nodes[idx].prev_idx = Some(idx)
                } else {
                    self.nodes[next_idx].prev_idx = Some(idx);
                }
            },
        }

        self.len -= 1;
        proof {
            assert forall|k: int| 0 <= k < last_idx implies (#[trigger] self.nodes@[k]).item()
                == pre.nodes@[pre.origin(idx, k)].item() && self.nodes@[k].next() == redirected(
                cut(pre.nodes@[pre.origin(idx, k)].next(), idx),
                last_idx,
                idx,
            ) && self.nodes@[k].prev() == redirected(
                cut(pre.nodes@[pre.origin(idx, k)].prev(), idx),
                last_idx,
                idx,
            ) by {
                let o = pre.origin(idx, k);
                assert(moved[k] == pre.nodes@[o]);
                assert(forwarded[k].item() == detached[k].item());
                assert(detached[k].item() == moved[k].item());
                assert(forwarded[idx as int].next() == redirected(
                    detached[idx as int].next(),
                    last_idx,
                    idx,
                ));
                assert(detached[idx as int].next() == cut(moved[idx as int].next(), idx));
                assert(detached[k].prev() == cut(moved[k].prev(), idx));
                assert(pre.next_ok(o));
                assert(pre.prev_ok(o));
                assert(pre.next_ok(last_idx as int));
                assert(pre.prev_ok(last_idx as int));
            }
            self.lemma_removal_linked(&pre, idx);
        }
        true
    }

    /// Deleting a node leaves the links mutual.
    proof fn lemma_removal_linked(&self, pre: &Self, idx: usize)
        requires
            pre.linked(),
            idx < pre.nodes@.len(),
            self.is_removal_of(pre, idx),
        ensures
            self.linked(),
    {
        let last = (pre.nodes@.len() - 1) as usize;
        assert(pre.nodes.len() == pre.nodes@.len());
        assert forall|i: int| 0 <= i < self.nodes@.len() implies self.next_ok(i) && self.prev_ok(
            i,
        ) && (#[trigger] self.nodes@[i]).item() == pre.nodes@[pre.origin(idx, i)].item() by {
            let o = pre.origin(idx, i);
            assert(pre.next_ok(o));
            assert(pre.prev_ok(o));
            assert(o != idx);
            assert(self.nodes@[i].next() == redirected(
                cut(pre.nodes@[o].next(), idx),
                last,
                idx,
            ));
            assert(self.nodes@[i].prev() == redirected(
                cut(pre.nodes@[o].prev(), idx),
                last,
                idx,
            ));
            match pre.nodes@[o].next() {
                Some(t) => {
                    assert(pre.next_ok(t as int));
                    assert(pre.prev_ok(t as int));
                    if t != idx {
                        let j: int = if t == last {
                            idx as int
                        } else {
                            t as int
                        };
                        assert(pre.origin(idx, j) == t);
                        assert(self.nodes@[j].prev() == redirected(
                            cut(pre.nodes@[t as int].prev(), idx),
                            last,
                            idx,
                        ));
                        assert(self.nodes@[i].next() == Some(j as usize));
                        assert(self.nodes@[j].prev() == Some(i as usize));
                    }
                },
                None => {},
            }
            match pre.nodes@[o].prev() {
                Some(t) => {
                    assert(pre.prev_ok(o));
                    assert(0 <= t < pre.nodes@.len());
                    assert(pre.next_ok(t as int));
                    assert(pre.prev_ok(t as int));
                    if t != idx {
                        let j: int = if t == last {
                            idx as int
                        } else {
                            t as int
                        };
                        assert(pre.origin(idx, j) == t);
                        assert(self.nodes@[j].next() == redirected(
                            cut(pre.nodes@[t as int].next(), idx),
                            last,
                            idx,
                        ));
                        assert(self.nodes@[i].prev() == Some(j as usize));
                        assert(self.nodes@[j].next() == Some(i as usize));
                    }
                },
                None => {},
            }
        }
    }

    /// The node in slot `idx`.
    pub fn get_node(&self, idx: usize) -> (node: &Node<T>)
        requires
            idx < self.nodes@.len(),
        ensures
            *node == self.nodes@[idx as int],
    {
        return &self.nodes[idx];
    }
}

impl<'a, T> View for DoubleLinkedList<'a, T> {
    type V = Seq<T>;

    /// The items of the list, in order.
    open spec fn view(&self) -> Seq<T> {
        self.arena().items(self.slots())
    }
}

impl<'a, T> DoubleLinkedList<'a, T> {
    /// The arena as the list currently holds it.
    pub closed spec fn arena(&self) -> ArenaList<T> {
        *self.owner
    }

    /// The borrow through which the list holds its arena. What the lender
    /// finds in the arena once the list is gone is `*final` of it.
    pub closed spec fn handle(&self) -> &'a mut ArenaList<T> {
        self.owner
    }

    /// The slot of the dummy head: the value of `root_idx`.
    pub closed spec fn head(&self) -> usize {
        self.root_idx
    }

    /// Once the list is no longer used, the lender finds the arena as the
    /// list last held it.
    pub proof fn lemma_released(self)
        requires
            has_resolved(self),
        ensures
            *final(self.handle()) == self.arena(),
    {
    }

    /// The slots of the list in order, the dummy head first.
    pub closed spec fn slots(&self) -> Seq<usize> {
        self.chain@
    }

    /// The invariant of the list: its arena is well formed and holds it.
    pub open spec fn wf(&self) -> bool {
        &&& self.arena().wf()
        &&& self.arena().holds_list(self.head(), self.slots())
    }

    /// A list whose dummy head is slot 0, after a dummy node was put at the
    /// end of `arena_list`. On an arena without nodes this is an empty list.
    pub fn new(arena_list: &'a mut ArenaList<T>) -> (res: Self)
        requires
            old(arena_list).wf(),
        ensures
            res.head() == 0,
            res.arena().wf(),
            res.arena().nodes@.len() == old(arena_list).nodes@.len() + 1,
            forall|i: int|
                0 <= i < old(arena_list).nodes@.len() ==> res.arena().nodes@[i] == old(
                    arena_list,
                ).nodes@[i],
            res.arena().nodes@.last().item().is_none(),
            res.arena().nodes@.last().next().is_none(),
            res.arena().nodes@.last().prev().is_none(),
            old(arena_list).nodes@.len() == 0 ==> res.wf() && res@ == Seq::<T>::empty(),
            old(arena_list).linked() ==> res.arena().linked(),
            *final(res.handle()) == *final(arena_list),
    {
        let ghost head_only: Seq<usize> = seq![0usize];
        let mut res = Self { root_idx: 0, owner: arena_list, chain: Ghost(head_only) };
        res.owner.add_node(None);
        proof {
            if old(arena_list).nodes@.len() == 0 {
                assert(res.arena().slot_ok(res.slots(), 0));
                assert(res@ =~= Seq::<T>::empty());
            }
        }
        res
    }

    /// A list of the items of `vec1`, in their order, in new nodes at the end
    /// of `arena_list`, each linked to its neighbours in both directions.
    pub fn from_vec(arena_list: &'a mut ArenaList<T>, vec1: Vec<T>) -> (res: DoubleLinkedList<T>)
        requires
            old(arena_list).wf(),
        ensures
            res.wf(),
            res@ == vec1@,
            res.head() == old(arena_list).nodes@.len(),
            res.arena().nodes@.len() == old(arena_list).nodes@.len() + vec1@.len() + 1,
            res.arena().back_linked(res.slots()),
            forall|i: int|
                0 <= i < old(arena_list).nodes@.len() ==> res.arena().nodes@[i] == old(
                    arena_list,
                ).nodes@[i],
            old(arena_list).linked() ==> res.arena().linked(),
            *final(res.handle()) == *final(arena_list),
    {
        let ghost given = vec1@;
        let ghost start = arena_list.nodes@;
        let ghost was_linked = arena_list.linked();
        let ghost head_only: Seq<usize> = seq![arena_list.len];
        let ghost returned = *final(arena_list);
        let mut res = Self { root_idx: arena_list.len, owner: arena_list, chain: Ghost(head_only) };

        let mut curr_idx = res.root_idx;
        res.owner.add_node(None);  // the dummy head
        proof {
            assert(res.arena().slot_ok(res.slots(), 0));
            assert(res@ =~= given.take(0));
        }

        for data in it: vec1.into_iter()
            invariant
                it.seq() == given,
                res.wf(),
                res.root_idx == start.len(),
                *final(res.owner) == returned,
                res.chain@.last() == curr_idx,
                res.chain@.len() == it.index() + 1,
                res@ == given.take(it.index()),
                res.owner.back_linked(res.chain@),
                res.owner.nodes@.len() == start.len() + res.chain@.len(),
                forall|i: int| 0 <= i < res.chain@.len() ==> res.chain@[i] == start.len() + i,
                forall|i: int| 0 <= i < start.len() ==> res.owner.nodes@[i] == start[i],
                res.owner.nodes@.last().prev() == if it.index() == 0 {
                    None
                } else {
                    Some((curr_idx - 1) as usize)
                },
                was_linked ==> res.owner.linked(),
        {
            let ghost n = it.index();
            let ghost chain = res.chain@;
            let ghost mid = *res.owner;
            let next_idx = res.owner.add_node(Some(data));
            res.owner.nodes[curr_idx].next_idx = Some(next_idx);
            res.owner.nodes[next_idx].prev_idx = Some(curr_idx);
            curr_idx = next_idx;
            proof {
                let longer = chain.push(next_idx);
                res.chain@ = longer;
                let post = *res.owner;
                assert forall|i: int| 0 <= i < longer.len() implies #[trigger] post.slot_ok(
                    longer,
                    i,
                ) by {
                    if i < chain.len() {
                        assert(mid.slot_ok(chain, i));
                    }
                }
                assert(post.back_linked(longer)) by {
                    assert forall|i: int| 1 <= i < longer.len() implies post.nodes@[
                    #[trigger] longer[i] as int].prev() == Some(longer[i - 1]) by {
                        if i < chain.len() {
                            assert(mid.nodes@[chain[i] as int].prev() == Some(chain[i - 1]));
                        }
                    }
                }
                assert(post.items(longer) =~= given.take(n + 1)) by {
                    assert forall|i: int| 0 <= i < n + 1 implies post.items(longer)[i]
                        == given.take(n + 1)[i] by {
                        if i < n {
                            assert(mid.items(chain)[i] == given.take(n)[i]);
                        }
                    }
                }
                if was_linked {
                    assert(mid.slot_ok(chain, chain.len() - 1));
                    assert forall|i: int| 0 <= i < post.nodes@.len() implies #[trigger] post.next_ok(
                        i,
                    ) by {
                        if i < mid.nodes@.len() {
                            assert(mid.next_ok(i));
                        }
                    }
                    assert forall|i: int| 0 <= i < post.nodes@.len() implies #[trigger] post.prev_ok(
                        i,
                    ) by {
                        if i < mid.nodes@.len() {
                            assert(mid.prev_ok(i));
                        }
                    }
                }
            }
        }
        proof {
            assert(given.take(given.len() as int) =~= given);
        }
        res
    }

    /// The items of the list, in order.
    pub fn to_vec(&self) -> (res: Vec<&T>)
        requires
            self.wf(),
        ensures
            res@.len() == self@.len(),
            forall|i: int| 0 <= i < res@.len() ==> *res@[i] == self@[i],
    {
        let mut curr_idx = self.root_idx;

        let mut res: Vec<&T> = Vec::new();
        let ghost mut at: int = 0;
        loop
            invariant
                self.wf(),
                0 <= at < self.slots().len(),
                curr_idx == self.slots()[at],
                res@.len() == at,
                forall|i: int| 0 <= i < at ==> *res@[i] == self@[i],
            ensures
                res@.len() == self@.len(),
                forall|i: int| 0 <= i < res@.len() ==> *res@[i] == self@[i],
            decreases self.slots().len() - at,
        {
            proof {
                assert(self.arena().slot_ok(self.slots(), at));
            }
            match self.owner.nodes[curr_idx].next_idx {
                None => {
                    break ;
                },
                Some(next_idx) => {
                    proof {
                        assert(self.arena().slot_ok(self.slots(), at + 1));
                    }
                    match &self.owner.nodes[next_idx].data {
                        None => {
                            break ;
                        },
                        Some(data) => {
                            res.push(data);
                        },
                    }
                    curr_idx = next_idx;
                    proof {
                        at = at + 1;
                    }
                },
            }
        }
        res
    }

    /// Puts a node without links at the end of the arena and returns its
    /// slot. The list itself stays as it is.
    pub fn add_node(&mut self, data: Option<T>) -> (idx: usize)
        requires
            old(self).wf(),
        ensures
            final(self).wf(),
            final(self)@ == old(self)@,
            final(self).slots() == old(self).slots(),
            final(self).head() == old(self).head(),
            idx == old(self).arena().nodes@.len(),
            final(self).arena().nodes@.len() == idx + 1,
            forall|i: int|
                0 <= i < idx ==> final(self).arena().nodes@[i] == old(self).arena().nodes@[i],
            final(self).arena().nodes@[idx as int].item() == data,
            final(self).arena().nodes@[idx as int].next().is_none(),
            final(self).arena().nodes@[idx as int].prev().is_none(),
            *final(final(self).handle()) == *final(old(self).handle()),
    {
        let ghost pre = *self.owner;
        let idx = self.owner.add_node(data);
        proof {
            let chain = self.chain@;
            assert forall|i: int| 0 <= i < chain.len() implies #[trigger] self.owner.slot_ok(
                chain,
                i,
            ) by {
                assert(pre.slot_ok(chain, i));
            }
            assert(self@ =~= pre.items(chain)) by {
                assert forall|i: int| 0 <= i < chain.len() - 1 implies self@[i] == pre.items(
                    chain,
                )[i] by {
                    assert(pre.slot_ok(chain, i + 1));
                }
            }
        }
        idx
    }

    /// The node in slot `idx` of the arena.
    pub fn get_node_by_idx(&self, idx: usize) -> (node: &Node<T>)
        requires
            idx < self.arena().nodes@.len(),
        ensures
            *node == self.arena().nodes@[idx as int],
    {
        return self.owner.get_node(idx);
    }

    /// Puts `data` into the list so that it becomes the item at position
    /// `num`; at the end if `num` is the length of the list. A longer list is
    /// needed for any greater `num`: then nothing is put in. Either way the
    /// arena has one more node, which holds `data`. The new node gets its
    /// successor only; the predecessor links are left as they are.
    pub fn insert(&mut self, num: usize, data: T)
        requires
            old(self).wf(),
        ensures
            final(self).wf(),
            final(self)@ == if num <= old(self)@.len() {
                old(self)@.insert(num as int, data)
            } else {
                old(self)@
            },
            final(self).head() == old(self).head(),
            final(self).arena().nodes@.len() == old(self).arena().nodes@.len() + 1,
            final(self).arena().nodes@.last().item() == Some(data),
            *final(final(self).handle()) == *final(old(self).handle()),
    {
        let mut curr_idx = self.root_idx;
        let mut num = num;
        let ghost wanted = num;
        let ghost chain = self.chain@;
        let ghost before = self@;
        proof {
            assert forall|k: int| 0 <= k < chain.len() implies #[trigger] chain[k]
                < self.owner.nodes@.len() by {
                assert(self.owner.slot_ok(chain, k));
            }
        }
        let new_idx = self.add_node(Some(data));
        let ghost mid = *self.owner;
        let ghost mut at: int = 0;

        loop
            invariant_except_break
                *self.owner == mid,
                self.chain@ == chain,
                0 <= at < chain.len(),
                curr_idx == chain[at],
                at + num == wanted,
            invariant
                self.root_idx == old(self).root_idx,
                *final(self.owner) == *final(old(self).owner),
                mid.wf(),
                mid.holds_list(self.root_idx, chain),
                mid.items(chain) == before,
                new_idx + 1 == mid.nodes@.len(),
                mid.nodes@[new_idx as int].item() == Some(data),
                mid.nodes@[new_idx as int].next().is_none(),
                forall|k: int| 0 <= k < chain.len() ==> #[trigger] chain[k] < new_idx,
            ensures
                self.wf(),
                self@ == if wanted <= before.len() {
                    before.insert(wanted as int, data)
                } else {
                    before
                },
                self.owner.nodes@.len() == mid.nodes@.len(),
                self.owner.nodes@[new_idx as int].item() == Some(data),
            decreases chain.len() - at,
        {
            proof {
                assert(mid.slot_ok(chain, at));
                assert(!chain.contains(new_idx));
            }
            if num <= 0 {
                self.owner.nodes[new_idx].next_idx = self.owner.nodes[curr_idx].next_idx;
                self.owner.nodes[curr_idx].next_idx = Some(new_idx);
                proof {
                    let longer = chain.insert(at + 1, new_idx);
                    chain.insert_ensures(at + 1, new_idx);
                    self.chain@ = longer;
                    let post = *self.owner;
                    assert forall|i: int| 0 <= i < longer.len() implies #[trigger] post.slot_ok(
                        longer,
                        i,
                    ) by {
                        if i <= at {
                            assert(mid.slot_ok(chain, i));
                            assert(chain.contains(chain[i]));
                            if i < at {
                                assert(chain[i] != chain[at]);
                            }
                        } else if i > at + 1 {
                            assert(mid.slot_ok(chain, i - 1));
                            assert(chain.contains(chain[i - 1]));
                            assert(chain[i - 1] != chain[at]);
                        } else {
                            if at + 1 < chain.len() {
                                assert(mid.slot_ok(chain, at + 1));
                            }
                        }
                    }
                    assert(longer.no_duplicates()) by {
                        assert forall|i: int, j: int|
                            0 <= i < longer.len() && 0 <= j < longer.len() && i != j implies longer[i]
                            != longer[j] by {
                            let oi = if i <= at {
                                i
                            } else {
                                i - 1
                            };
                            let oj = if j <= at {
                                j
                            } else {
                                j - 1
                            };
                            if i != at + 1 {
                                assert(chain.contains(chain[oi]));
                            }
                            if j != at + 1 {
                                assert(chain.contains(chain[oj]));
                            }
                        }
                    }
                    before.insert_ensures(wanted as int, data);
                    assert(post.items(longer) =~= before.insert(wanted as int, data)) by {
                        assert forall|i: int| 0 <= i < longer.len() - 1 implies post.items(longer)[i]
                            == before.insert(wanted as int, data)[i] by {
                            if i < at {
                                assert(mid.slot_ok(chain, i + 1));
                                assert(post.nodes@[chain[i + 1] as int].item()
                                    == mid.nodes@[chain[i + 1] as int].item());
                                assert(before[i] == mid.nodes@[chain[i + 1] as int].item().unwrap());
                            } else if i > at {
                                assert(mid.slot_ok(chain, i));
                                assert(post.nodes@[chain[i] as int].item()
                                    == mid.nodes@[chain[i] as int].item());
                                assert(before[i - 1] == mid.nodes@[chain[i] as int].item().unwrap());
                            }
                        }
                    }
                }
                break ;
            }
            match self.owner.nodes[curr_idx].next_idx {
                None => break ,
                Some(next_idx) => {
                    curr_idx = next_idx;
                },
            }

            num -= 1;
            proof {
                at = at + 1;
            }
        }
    }

    /// Does nothing.
    pub fn get(&self, num: usize) {
        let mut curr_idx = self.root_idx;
    }

    /// Does nothing.
    pub fn del() {
    }
}

} // verus!
