//! A singly linked list in an arena that only grows: a deleted node is
//! unlinked and stays in its slot. A list is known by the slot of its dummy
//! head.

use vstd::prelude::*;

verus! {

/// The arena: all nodes, and the slot that the next node will get.
pub struct ArenaList<T> {
    pub nodes: Vec<NodeInfo<T>>,
    first_free: usize,
    len: usize,
}

/// What a slot holds: an item, none for a dummy head, and the slot of the
/// successor, if there is one.
pub struct NodeInfo<T> {
    pub data: Option<T>,
    pub next_idx: Option<usize>,
}

/// A list in an arena that it borrows exclusively, named after its dummy
/// head.
pub struct Node<'a, T> {
    id: usize,
    owner: &'a mut ArenaList<T>,
    chain: Ghost<Seq<usize>>,
}

impl<T> ArenaList<T> {
    /// What the slots hold, by position.
    pub closed spec fn cells(&self) -> Seq<NodeInfo<T>> {
        self.nodes@
    }

    /// The slot that the next node will get.
    pub closed spec fn next_slot(&self) -> usize {
        self.first_free
    }

    /// The next node will be put at the end.
    pub open spec fn wf(&self) -> bool {
        self.next_slot() == self.cells().len()
    }

    /// Slot `i` of `chain` is a slot of the arena, its successor is slot
    /// `i + 1` of the chain, or none if it is the last, and unless it is the
    /// head it holds an item.
    pub open spec fn slot_ok(&self, chain: Seq<usize>, i: int) -> bool {
        &&& chain[i] < self.cells().len()
        &&& self.cells()[chain[i] as int].next_idx == if i + 1 < chain.len() {
            Some(chain[i + 1])
        } else {
            None
        }
        &&& i >= 1 ==> self.cells()[chain[i] as int].data is Some
    }

    /// `chain` is a list in this arena: it starts at the dummy head `root`,
    /// no slot occurs twice in it, and each of its slots is in order.
    pub open spec fn holds_list(&self, root: usize, chain: Seq<usize>) -> bool {
        &&& chain.len() >= 1
        &&& chain[0] == root
        &&& chain.no_duplicates()
        &&& forall|i: int| 0 <= i < chain.len() ==> #[trigger] self.slot_ok(chain, i)
    }

    /// The items of the list `chain`, in order.
    pub open spec fn items(&self, chain: Seq<usize>) -> Seq<T> {
        Seq::new((chain.len() - 1) as nat, |i: int| self.cells()[chain[i + 1] as int].data.unwrap())
    }

    /// An arena without nodes.
    pub fn new() -> (res: Self)
        ensures
            res.wf(),
            res.cells().len() == 0,
    {
        return ArenaList { nodes: Vec::new(), first_free: 0, len: 0 };
    }

    /// Puts `data` into a new slot without successor and returns the slot.
    fn make_node(&mut self, data: Option<T>) -> (idx: usize)
        requires
            old(self).wf(),
        ensures
            final(self).wf(),
            idx == old(self).cells().len(),
            final(self).cells() == old(self).cells().push(NodeInfo { data, next_idx: None }),
    {
        self.nodes.push(NodeInfo { data, next_idx: None });
        proof {
            assert(self.nodes.len() == old(self).nodes@.len() + 1);
        }
        self.first_free += 1;
        return self.first_free - 1;
    }

    /// Does nothing: slots of deleted nodes are not reclaimed.
    pub fn compact(&mut self)
        ensures
            *final(self) == *old(self),
    {
    }

    /// Removes all nodes.
    pub fn clear(&mut self)
        ensures
            final(self).wf(),
            final(self).cells().len() == 0,
    {
        self.first_free = 0;
        self.nodes.clear();
    }

    /// A list that was there before a node was added is still there, with
    /// the same items, in slots other than the new one.
    proof fn lemma_after_make_node(&self, pre: &Self, root: usize, chain: Seq<usize>)
        requires
            pre.holds_list(root, chain),
            self.nodes@.len() == pre.nodes@.len() + 1,
            forall|s: int| 0 <= s < pre.nodes@.len() ==> self.nodes@[s] == pre.nodes@[s],
        ensures
            self.holds_list(root, chain),
            self.items(chain) == pre.items(chain),
            forall|i: int| 0 <= i < chain.len() ==> #[trigger] chain[i] < pre.nodes@.len(),
    {
        assert forall|i: int| 0 <= i < chain.len() implies #[trigger] self.slot_ok(chain, i)
            && chain[i] < pre.nodes@.len() by {
            assert(pre.slot_ok(chain, i));
        }
        assert forall|i: int| 0 <= i < chain.len() implies #[trigger] chain[i]
            < pre.nodes@.len() by {
            assert(pre.slot_ok(chain, i));
        }
        assert(self.items(chain) =~= pre.items(chain)) by {
            assert forall|i: int| 0 <= i < chain.len() - 1 implies self.items(chain)[i]
                == pre.items(chain)[i] by {
                assert(pre.slot_ok(chain, i + 1));
            }
        }
    }
}

impl<'a, T> View for Node<'a, T> {
    type V = Seq<T>;

    /// The items of the list, in order.
    open spec fn view(&self) -> Seq<T> {
        self.arena().items(self.slots())
    }
}

impl<'a, T> Node<'a, T> {
    /// The arena as the list currently holds it.
    pub closed spec fn arena(&self) -> ArenaList<T> {
        *self.owner
    }

    /// The borrow through which the list holds its arena. What the lender
    /// finds in the arena once the list is gone is `*final` of it.
    pub closed spec fn handle(&self) -> &'a mut ArenaList<T> {
        self.owner
    }

    /// The slot of the dummy head.
    pub closed spec fn head(&self) -> usize {
        self.id
    }

    /// Once the list is no longer used, the lender finds the arena as the
    /// list last held it.
    pub proof fn lemma_released(self)
        requires
            has_resolved(self),
        ensures
            *final(self.handle()) == self.arena(),
    {
    }

    /// The slots of the list in order, the dummy head first.
    pub closed spec fn slots(&self) -> Seq<usize> {
        self.chain@
    }

    /// The invariant of the list: its arena is well formed and holds it.
    pub open spec fn wf(&self) -> bool {
        &&& self.arena().wf()
        &&& self.arena().holds_list(self.head(), self.slots())
    }

    /// An empty list, whose dummy head is a new node of `arena_list`.
    pub fn init_with_dummy(arena_list: &'a mut ArenaList<T>) -> (res: Self)
        requires
            old(arena_list).wf(),
        ensures
            res.wf(),
            res@ == Seq::<T>::empty(),
            res.head() == old(arena_list).cells().len(),
            *final(res.handle()) == *final(arena_list),
    {
        let idx = arena_list.make_node(None);
        let ghost head_only: Seq<usize> = seq![idx];
        let res = Self { id: idx, owner: arena_list, chain: Ghost(head_only) };
        proof {
            assert(res.arena().slot_ok(head_only, 0));
            assert(res@ =~= Seq::<T>::empty());
        }
        res
    }

    /// Makes the items of `vec`, in their order, the items of the list.
    /// They are hung to the dummy head, so the items that the list had are
    /// dropped from it; an empty `vec` changes nothing.
    pub fn push_by_vec(&mut self, vec: Vec<T>)
        requires
            old(self).wf(),
        ensures
            final(self).wf(),
            final(self)@ == if vec@.len() == 0 {
                old(self)@
            } else {
                vec@
            },
            final(self).head() == old(self).head(),
            *final(final(self).handle()) == *final(old(self).handle()),
    {
        let ghost given = vec@;
        let ghost before = self@;
        let mut prev = self.id;
        for data in it: vec.into_iter()
            invariant
                it.seq() == given,
                self.wf(),
                self.id == old(self).id,
                *final(self.owner) == *final(old(self).owner),
                prev == if it.index() == 0 {
                    self.id
                } else {
                    self.chain@.last()
                },
                it.index() > 0 ==> self.chain@.len() == it.index() + 1,
                self@ == if it.index() == 0 {
                    before
                } else {
                    given.take(it.index())
                },
        {
            let ghost n = it.index();
            let ghost chain = self.chain@;
            let ghost pre = *self.owner;
            let curr = self.owner.make_node(Some(data));
            let ghost mid = *self.owner;
            proof {
                mid.lemma_after_make_node(&pre, self.id, chain);
            }
            self.owner.nodes[prev].next_idx = Some(curr);
            prev = curr;
            proof {
                let kept = if n == 0 {
                    seq![self.id]
                } else {
                    chain
                };
                let longer = kept.push(curr);
                self.chain@ = longer;
                let post = *self.owner;
                assert(pre.slot_ok(chain, 0));
                assert forall|i: int| 0 <= i < longer.len() implies #[trigger] post.slot_ok(
                    longer,
                    i,
                ) by {
                    if i < kept.len() {
                        assert(kept[i] == chain[i]);
                        assert(mid.slot_ok(chain, i));
                        if i + 1 < kept.len() {
                            assert(chain[i] != chain[kept.len() - 1]);
                        }
                    }
                }
                assert(longer.no_duplicates()) by {
                    assert forall|i: int, j: int|
                        0 <= i < longer.len() && 0 <= j < longer.len() && i != j implies longer[i]
                        != longer[j] by {
                        if i < kept.len() {
                            assert(kept[i] == chain[i]);
                        }
                        if j < kept.len() {
                            assert(kept[j] == chain[j]);
                        }
                    }
                }
                assert(post.items(longer) =~= given.take(n + 1)) by {
                    assert forall|i: int| 0 <= i < n + 1 implies post.items(longer)[i]
                        == given.take(n + 1)[i] by {
                        if i < n {
                            assert(mid.items(chain)[i] == given.take(n)[i]);
                            assert(mid.slot_ok(chain, i + 1));
                        }
                    }
                }
            }
        }
        proof {
            assert(given.take(given.len() as int) =~= given);
        }
    }

    /// A list of the items of `vec`, in their order, in new nodes of
    /// `arena_list`.
    pub fn from_vec(arena_list: &'a mut ArenaList<T>, vec: Vec<T>) -> (res: Self)
        requires
            old(arena_list).wf(),
        ensures
            res.wf(),
            res@ == vec@,
            res.head() == old(arena_list).cells().len(),
            *final(res.handle()) == *final(arena_list),
    {
        let mut res = Self::init_with_dummy(arena_list);
        res.push_by_vec(vec);
        res
    }

    /// The items of the list, in order.
    pub fn to_vec(&self) -> (res: Vec<&T>)
        requires
            self.wf(),
        ensures
            res@.len() == self@.len(),
            forall|i: int| 0 <= i < res@.len() ==> *res@[i] == self@[i],
    {
        let mut res: Vec<&T> = Vec::new();
        let mut curr = self.id;
        let ghost mut at: int = 0;
        loop
            invariant
                self.wf(),
                0 <= at < self.slots().len(),
                curr == self.slots()[at],
                res@.len() == at,
                forall|i: int| 0 <= i < at ==> *res@[i] == self@[i],
            ensures
                res@.len() == self@.len(),
                forall|i: int| 0 <= i < res@.len() ==> *res@[i] == self@[i],
            decreases self.slots().len() - at,
        {
            proof {
                assert(self.arena().slot_ok(self.slots(), at));
            }
            match self.owner.nodes[curr].next_idx {
                Some(next_node) => {
                    proof {
                        assert(self.arena().slot_ok(self.slots(), at + 1));
                    }
                    curr = next_node;
                    res.push(self.owner.nodes[curr].data.as_ref().unwrap());
                    proof {
                        at = at + 1;
                    }
                },
                None => break ,
            }
        }
        res
    }

    /// Puts `val` into the list so that it becomes the item at position
    /// `idx`, at the end if `idx` is the length of the list, and says whether
    /// it did: not if `idx` is greater than the length.
    pub fn insert(&mut self, idx: usize, val: T) -> (done: bool)
        requires
            old(self).wf(),
        ensures
            final(self).wf(),
            done == (idx <= old(self)@.len()),
            final(self)@ == if done {
                old(self)@.insert(idx as int, val)
            } else {
                old(self)@
            },
            final(self).head() == old(self).head(),
            *final(final(self).handle()) == *final(old(self).handle()),
    {
        let ghost pre = *self.owner;
        let ghost chain = self.chain@;
        let ghost before = self@;
        let insert_idx = self.owner.make_node(Some(val));
        let ghost mid = *self.owner;
        proof {
            mid.lemma_after_make_node(&pre, self.id, chain);
        }
        let mut left = idx;
        let mut curr = self.id;
        let ghost mut at: int = 0;
        loop
            invariant
                *self.owner == mid,
                self.chain@ == chain,
                self.id == old(self).id,
                *final(self.owner) == *final(old(self).owner),
                before == old(self)@,
                mid.wf(),
                mid.holds_list(self.id, chain),
                mid.items(chain) == before,
                insert_idx + 1 == mid.nodes@.len(),
                mid.nodes@[insert_idx as int].data == Some(val),
                mid.nodes@[insert_idx as int].next_idx.is_none(),
                forall|k: int| 0 <= k < chain.len() ==> #[trigger] chain[k] < insert_idx,
                0 <= at < chain.len(),
                curr == chain[at],
                at + left == idx,
            decreases chain.len() - at,
        {
            proof {
                assert(mid.slot_ok(chain, at));
                assert(!chain.contains(insert_idx));
            }
            if left == 0 {
                self.owner.nodes[insert_idx].next_idx = self.owner.nodes[curr].next_idx;
                self.owner.nodes[curr].next_idx = Some(insert_idx);
                proof {
                    let longer = chain.insert(at + 1, insert_idx);
                    chain.insert_ensures(at + 1, insert_idx);
                    self.chain@ = longer;
                    let post = *self.owner;
                    assert forall|i: int| 0 <= i < longer.len() implies #[trigger] post.slot_ok(
                        longer,
                        i,
                    ) by {
                        if i <= at {
                            assert(mid.slot_ok(chain, i));
                            if i < at {
                                assert(chain[i] != chain[at]);
                            }
                        } else if i > at + 1 {
                            assert(mid.slot_ok(chain, i - 1));
                            assert(chain[i - 1] != chain[at]);
                        } else {
                            if at + 1 < chain.len() {
                                assert(mid.slot_ok(chain, at + 1));
                            }
                        }
                    }
                    assert(longer.no_duplicates()) by {
                        assert forall|i: int, j: int|
                            0 <= i < longer.len() && 0 <= j < longer.len() && i != j implies longer[i]
                            != longer[j] by {
                            let oi = if i <= at {
                                i
                            } else {
                                i - 1
                            };
                            let oj = if j <= at {
                                j
                            } else {
                                j - 1
                            };
                            if i != at + 1 {
                                assert(chain[oi] < insert_idx);
                            }
                            if j != at + 1 {
                                assert(chain[oj] < insert_idx);
                            }
                        }
                    }
                    before.insert_ensures(idx as int, val);
                    assert(post.items(longer) =~= before.insert(idx as int, val)) by {
                        assert forall|i: int| 0 <= i < longer.len() - 1 implies post.items(longer)[i]
                            == before.insert(idx as int, val)[i] by {
                            if i < at {
                                assert(mid.slot_ok(chain, i + 1));
                                assert(post.nodes@[chain[i + 1] as int].data
                                    == mid.nodes@[chain[i + 1] as int].data);
                                assert(before[i] == mid.nodes@[chain[i + 1] as int].data.unwrap());
                            } else if i > at {
                                assert(mid.slot_ok(chain, i));
                                assert(post.nodes@[chain[i] as int].data
                                    == mid.nodes@[chain[i] as int].data);
                                assert(before[i - 1] == mid.nodes@[chain[i] as int].data.unwrap());
                            }
                        }
                    }
                }
                return true;
            }
            match self.owner.nodes[curr].next_idx {
                Some(next_node) => {
                    curr = next_node;
                    left -= 1;
                    proof {
                        at = at + 1;
                    }
                },
                None => {
                    return false;
                },
            }
        }
    }

    /// The item at position `idx`, counted from 0; none if the list is
    /// shorter.
    pub fn get(&self, idx: usize) -> (res: &Option<T>)
        requires
            self.wf(),
        ensures
            *res == if idx < self@.len() {
                Some(self@[idx as int])
            } else {
                None
            },
    {
        let mut left = idx;
        let mut curr_idx = self.id;
        let ghost mut at: int = 0;
        loop
            invariant
                self.wf(),
                0 <= at < self.slots().len(),
                curr_idx == self.slots()[at],
                at + left == idx,
            decreases self.slots().len() - at,
        {
            proof {
                assert(self.arena().slot_ok(self.slots(), at));
            }
            match self.owner.nodes[curr_idx].next_idx {
                Some(next_node) => {
                    proof {
                        assert(self.arena().slot_ok(self.slots(), at + 1));
                    }
                    if left == 0 {
                        return &self.owner.nodes[next_node].data;
                    }
                    curr_idx = next_node;
                    left -= 1;
                    proof {
                        at = at + 1;
                    }
                },
                None => {
                    return &None;
                },
            }
        }
    }

    /// Takes the item at position `idx` out of the list and says whether
    /// there was one. Its node stays in the arena, unlinked from the list.
    pub fn del(&mut self, idx: usize) -> (deleted: bool)
        requires
            old(self).wf(),
        ensures
            final(self).wf(),
            deleted == (idx < old(self)@.len()),
            final(self)@ == if deleted {
                old(self)@.remove(idx as int)
            } else {
                old(self)@
            },
            final(self).head() == old(self).head(),
            *final(final(self).handle()) == *final(old(self).handle()),
    {
        let ghost pre = *self.owner;
        let ghost chain = self.chain@;
        let mut left = idx;
        let mut curr_idx = self.id;
        let ghost mut at: int = 0;
        loop
            invariant
                *self.owner == pre,
                self.chain@ == chain,
                pre == old(self).arena(),
                chain == old(self).slots(),
                self.id == old(self).id,
                *final(self.owner) == *final(old(self).owner),
                pre.wf(),
                pre.holds_list(self.id, chain),
                0 <= at < chain.len(),
                curr_idx == chain[at],
                at + left == idx,
            decreases chain.len() - at,
        {
            proof {
                assert(pre.slot_ok(chain, at));
            }
            match self.owner.nodes[curr_idx].next_idx {
                Some(next_idx) => {
                    proof {
                        assert(pre.slot_ok(chain, at + 1));
                    }
                    if left == 0 {
                        self.owner.nodes[curr_idx].next_idx = self.owner.nodes[next_idx].next_idx;
                        // The unlinked node keeps its slot: nothing reclaims it.
                        proof {
                            let shorter = chain.remove(at + 1);
                            chain.remove_ensures(at + 1);
                            self.chain@ = shorter;
                            let post = *self.owner;
                            assert forall|i: int| 0 <= i < shorter.len() implies #[trigger] post.slot_ok(
                                shorter,
                                i,
                            ) by {
                                let o = if i <= at {
                                    i
                                } else {
                                    i + 1
                                };
                                assert(pre.slot_ok(chain, o));
                                assert(shorter[i] == chain[o]);
                                if o != at {
                                    assert(chain[o] != chain[at]);
                                }
                            }
                            assert(shorter.no_duplicates());
                            let items = pre.items(chain);
                            items.remove_ensures(idx as int);
                            assert(post.items(shorter) =~= items.remove(idx as int)) by {
                                assert forall|i: int| 0 <= i < shorter.len() - 1 implies post.items(
                                    shorter,
                                )[i] == items.remove(idx as int)[i] by {
                                    let o = if i < at {
                                        i
                                    } else {
                                        i + 1
                                    };
                                    assert(shorter[i + 1] == chain[o + 1]);
                                    assert(pre.slot_ok(chain, o + 1));
                                    assert(post.nodes@[chain[o + 1] as int].data
                                        == pre.nodes@[chain[o + 1] as int].data);
                                    assert(items[o] == pre.nodes@[chain[o + 1] as int].data.unwrap());
                                }
                            }
                        }
                        return true;
                    }
                    curr_idx = next_idx;
                    left -= 1;
                    proof {
                        at = at + 1;
                    }
                },
                None => {
                    return false;
                },
            }
        }
    }
}

} // verus!
