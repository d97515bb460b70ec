//! Singly linked lists whose nodes live in a shared arena. The arena keeps
//! the payloads in one vector and the links in another; a deleted slot is
//! remembered as a hole and reused, last freed first, by the next insertion.
//! A list knows the slot of its dummy head; the items follow it.

use vstd::prelude::*;

verus! {

/// The arena: a pool of list nodes.
pub struct ArenaList<T> {
    /// The payload of each slot; none for a dummy head or a hole.
    pub nodes: Vec<Option<T>>,
    /// For each slot, the slot that follows it in its list, if any.
    pub nexts: Vec<Option<usize>>,
    /// The slots that are free for reuse.
    pub holes: Vec<usize>,
}

impl<T> ArenaList<T> {
    /// Both vectors have one entry per slot, and every hole is a slot that is
    /// listed once.
    pub open spec fn wf(&self) -> bool {
        &&& self.nodes@.len() == self.nexts@.len()
        &&& self.holes@.no_duplicates()
        &&& forall|i: int| 0 <= i < self.holes@.len() ==> #[trigger] self.holes@[i] < self.nodes@.len()
    }

    /// Slot `i` of `chain` is a slot of the arena and no hole, it is linked
    /// to slot `i + 1` of the chain, or to none if it is the last, and unless
    /// it is the head it holds an item.
    pub open spec fn slot_ok(&self, chain: Seq<usize>, i: int) -> bool {
        &&& chain[i] < self.nexts@.len()
        &&& self.nexts@[chain[i] as int] == if i + 1 < chain.len() {
            Some(chain[i + 1])
        } else {
            None
        }
        &&& i >= 1 ==> self.nodes@[chain[i] as int] is Some
        &&& !self.holes@.contains(chain[i])
    }

    /// `chain` is a list in this arena: it starts at the dummy head `root`,
    /// no slot occurs twice in it, and each of its slots is in order.
    pub open spec fn holds_list(&self, root: usize, chain: Seq<usize>) -> bool {
        &&& chain.len() >= 1
        &&& chain[0] == root
        &&& chain.no_duplicates()
        &&& forall|i: int| 0 <= i < chain.len() ==> #[trigger] self.slot_ok(chain, i)
    }

    /// The items of the list `chain`, in order.
    pub open spec fn items(&self, chain: Seq<usize>) -> Seq<T> {
        Seq::new((chain.len() - 1) as nat, |i: int| self.nodes@[chain[i + 1] as int].unwrap())
    }

    /// `self` differs from `pre` at most in the slots of `chain`, in what
    /// were holes, and in slots that `pre` did not have; and every hole of
    /// `self` was a hole or a slot of `chain`.
    pub open spec fn touched_only(&self, pre: &Self, chain: Seq<usize>) -> bool {
        &&& self.nodes@.len() >= pre.nodes@.len()
        &&& forall|s: usize|
            s < pre.nodes@.len() && !chain.contains(s) && !pre.holes@.contains(s)
                ==> #[trigger] self.nodes@[s as int] == pre.nodes@[s as int]
                && self.nexts@[s as int] == pre.nexts@[s as int]
        &&& forall|i: int|
            0 <= i < self.holes@.len() ==> pre.holes@.contains(#[trigger] self.holes@[i])
                || chain.contains(self.holes@[i])
    }

    /// A list that shares no slot with the one that was worked on is still
    /// there afterwards, with the same items.
    pub proof fn lemma_untouched(&self, pre: &Self, chain: Seq<usize>, root: usize, other: Seq<usize>)
        requires
            pre.wf(),
            self.wf(),
            self.touched_only(pre, chain),
            pre.holds_list(root, other),
            forall|i: int| 0 <= i < other.len() ==> !chain.contains(#[trigger] other[i]),
        ensures
            self.holds_list(root, other),
            self.items(other) == pre.items(other),
    {
        assert forall|i: int| 0 <= i < other.len() implies #[trigger] self.slot_ok(other, i)
            && self.nodes@[other[i] as int] == pre.nodes@[other[i] as int] by {
            assert(pre.slot_ok(other, i));
            assert(!chain.contains(other[i]));
            assert(self.nodes@[other[i] as int] == pre.nodes@[other[i] as int]);
            if self.holes@.contains(other[i]) {
                let h = choose|h: int| 0 <= h < self.holes@.len() && self.holes@[h] == other[i];
                assert(pre.holes@.contains(self.holes@[h]) || chain.contains(self.holes@[h]));
            }
        }
        assert(self.items(other) =~= pre.items(other)) by {
            assert forall|i: int| 0 <= i < other.len() - 1 implies self.items(other)[i]
                == pre.items(other)[i] by {
                assert(self.slot_ok(other, i + 1));
            }
        }
    }

    /// An arena without slots.
    pub fn new() -> (res: Self)
        ensures
            res.wf(),
            res.nodes@.len() == 0,
            res.holes@.len() == 0,
    {
        Self { nodes: Vec::new(), nexts: Vec::new(), holes: Vec::new() }
    }

    /// Puts `data` into a slot without successor and returns the slot: the
    /// hole that was freed last, or a new slot if there is no hole.
    fn make_node(&mut self, data: Option<T>) -> (idx: usize)
        requires
            old(self).wf(),
        ensures
            final(self).wf(),
            if old(self).holes@.len() > 0 {
                &&& idx == old(self).holes@.last()
                &&& final(self).holes@ == old(self).holes@.drop_last()
                &&& final(self).nodes@ == old(self).nodes@.update(idx as int, data)
                &&& final(self).nexts@ == old(self).nexts@.update(idx as int, None)
            } else {
                &&& idx == old(self).nodes@.len()
                &&& final(self).holes@ == old(self).holes@
                &&& final(self).nodes@ == old(self).nodes@.push(data)
                &&& final(self).nexts@ == old(self).nexts@.push(None)
            },
    {
        match self.holes.pop() {
            Some(new_idx) => {
                proof {
                    assert(new_idx == old(self).holes@[old(self).holes@.len() - 1]);
                }
                self.nodes[new_idx] = data;
                self.nexts[new_idx] = None;
                new_idx
            },
            None => {
                self.nodes.push(data);
                self.nexts.push(None);
                self.nexts.len() - 1
            },
        }
    }

    /// A list that was there before a slot was handed out is still there,
    /// and the new slot is none of its slots.
    proof fn lemma_after_make_node(&self, pre: &Self, idx: usize, root: usize, chain: Seq<usize>)
        requires
            pre.wf(),
            pre.holds_list(root, chain),
            self.wf(),
            self.nodes@.len() >= pre.nodes@.len(),
            forall|s: int|
                0 <= s < pre.nodes@.len() && s != idx ==> #[trigger] self.nodes@[s] == pre.nodes@[s]
                    && self.nexts@[s] == pre.nexts@[s],
            if pre.holes@.len() > 0 {
                idx == pre.holes@.last() && self.holes@ == pre.holes@.drop_last()
            } else {
                idx == pre.nodes@.len() && self.holes@ == pre.holes@
            },
        ensures
            !chain.contains(idx),
            self.holds_list(root, chain),
            self.items(chain) == pre.items(chain),
            !self.holes@.contains(idx),
            self.touched_only(pre, chain),
    {
        if pre.holes@.len() > 0 {
            assert(pre.holes@.contains(pre.holes@[pre.holes@.len() - 1]));
        }
        if chain.contains(idx) {
            let k = choose|k: int| 0 <= k < chain.len() && chain[k] == idx;
            assert(pre.slot_ok(chain, k));
        }
        assert forall|i: int| 0 <= i < self.holes@.len() implies pre.holes@.contains(
            #[trigger] self.holes@[i],
        ) by {
            assert(self.holes@[i] == pre.holes@[i]);
        }
        assert forall|i: int| 0 <= i < chain.len() implies #[trigger] self.slot_ok(chain, i)
            && self.nodes@[chain[i] as int] == pre.nodes@[chain[i] as int] by {
            assert(pre.slot_ok(chain, i));
            assert(chain.contains(chain[i]));
            assert(self.nodes@[chain[i] as int] == pre.nodes@[chain[i] as int]);
            if self.holes@.contains(chain[i]) {
                let h = choose|h: int| 0 <= h < self.holes@.len() && self.holes@[h] == chain[i];
                assert(pre.holes@.contains(self.holes@[h]));
            }
        }
        if self.holes@.contains(idx) {
            let h = choose|h: int| 0 <= h < self.holes@.len() && self.holes@[h] == idx;
            assert(pre.holes@[h] == idx);
            if pre.holes@.len() > 0 {
                assert(pre.holes@[pre.holes@.len() - 1] == idx);
            }
        }
        assert(self.items(chain) =~= pre.items(chain)) by {
            assert forall|i: int| 0 <= i < chain.len() - 1 implies self.items(chain)[i]
                == pre.items(chain)[i] by {
                assert(self.slot_ok(chain, i + 1));
            }
        }
        assert forall|s: usize|
            s < pre.nodes@.len() && !chain.contains(s) && !pre.holes@.contains(
                s,
            ) implies #[trigger] self.nodes@[s as int] == pre.nodes@[s as int]
            && self.nexts@[s as int] == pre.nexts@[s as int] by {
            if pre.holes@.len() > 0 {
                assert(pre.holes@.contains(pre.holes@[pre.holes@.len() - 1]));
            }
            assert(s != idx);
            assert(self.nodes@[s as int] == pre.nodes@[s as int]);
        }
    }
}

/// A list in an arena that it borrows exclusively: a dummy head, followed by
/// the slots of its items.
pub struct LinkedList<'a, T> {
    root: usize,
    owner: &'a mut ArenaList<T>,
    chain: Ghost<Seq<usize>>,
}

impl<'a, T> View for LinkedList<'a, T> {
    type V = Seq<T>;

    /// The items of the list, in order.
    open spec fn view(&self) -> Seq<T> {
        self.arena().items(self.slots())
    }
}

impl<'a, T> LinkedList<'a, T> {
    /// The arena as the list currently holds it.
    pub closed spec fn arena(&self) -> ArenaList<T> {
        *self.owner
    }

    /// The borrow through which the list holds its arena. What the lender
    /// finds in the arena once the list is gone is `*final` of it.
    pub closed spec fn handle(&self) -> &'a mut ArenaList<T> {
        self.owner
    }

    /// The slot of the dummy head.
    pub closed spec fn head(&self) -> usize {
        self.root
    }

    /// Once the list is no longer used, the lender finds the arena as the
    /// list last held it.
    pub proof fn lemma_released(self)
        requires
            has_resolved(self),
        ensures
            *final(self.handle()) == self.arena(),
    {
    }

    /// The slots of the list in order, the dummy head first.
    pub closed spec fn slots(&self) -> Seq<usize> {
        self.chain@
    }

    /// The invariant of the list: its arena is well formed and holds it.
    pub open spec fn wf(&self) -> bool {
        &&& self.arena().wf()
        &&& self.arena().holds_list(self.head(), self.slots())
    }

    /// A list of the items of `vec1`, in their order, in slots of
    /// `arena_list` that were free or are new.
    pub fn from_vec(arena_list: &'a mut ArenaList<T>, vec1: Vec<T>) -> (res: Self)
        requires
            old(arena_list).wf(),
        ensures
            res.wf(),
            res@ == vec1@,
            *final(res.handle()) == *final(arena_list),
    {
        let ghost given = vec1@;
        let dummy = arena_list.make_node(None);
        let mut prev = dummy;
        let ghost mut chain: Seq<usize> = seq![dummy];
        proof {
            assert(chain.contains(dummy)) by {
                assert(chain[0] == dummy);
            }
            assert(arena_list.slot_ok(chain, 0));
            assert(arena_list.items(chain) =~= given.take(0));
        }
        for data in it: vec1.into_iter()
            invariant
                it.seq() == given,
                arena_list.wf(),
                arena_list.holds_list(dummy, chain),
                chain.last() == prev,
                chain.len() == it.index() + 1,
                arena_list.items(chain) == given.take(it.index()),
        {
            let ghost pre = *arena_list;
            let ghost n = it.index();
            let curr = arena_list.make_node(Some(data));
            let ghost mid = *arena_list;
            proof {
                mid.lemma_after_make_node(&pre, curr, dummy, chain);
                assert(mid.slot_ok(chain, chain.len() - 1));
            }
            arena_list.nexts[prev] = Some(curr);
            prev = curr;
            proof {
                let longer = chain.push(curr);
                assert forall|i: int| 0 <= i < longer.len() implies #[trigger] arena_list.slot_ok(
                    longer,
                    i,
                ) by {
                    if i < chain.len() {
                        assert(mid.slot_ok(chain, i));
                        if i + 1 < chain.len() {
                            assert(chain[i] != chain[chain.len() - 1]);
                        }
                    }
                }
                assert(longer.no_duplicates()) by {
                    assert forall|i: int, j: int|
                        0 <= i < longer.len() && 0 <= j < longer.len() && i != j implies longer[i]
                        != longer[j] by {
                        if i < chain.len() && j < chain.len() {
                        } else if i < chain.len() {
                            assert(chain.contains(chain[i]));
                        } else {
                            assert(chain.contains(chain[j]));
                        }
                    }
                }
                assert(arena_list.items(longer) =~= given.take(n + 1)) by {
                    assert forall|i: int| 0 <= i < n + 1 implies arena_list.items(longer)[i]
                        == given.take(n + 1)[i] by {
                        if i < n {
                            assert(mid.items(chain)[i] == given.take(n)[i]);
                            assert(chain[i + 1] != chain[chain.len() - 1] || i + 1 == chain.len() - 1);
                        }
                    }
                }
                chain = longer;
            }
        }
        proof {
            assert(given.take(given.len() as int) =~= given);
        }
        Self { root: dummy, owner: arena_list, chain: Ghost(chain) }
    }

    /// Does nothing.
    fn clear() {
    }

    /// The items of the list, in order.
    pub fn to_vec(&self) -> (res: Vec<&T>)
        requires
            self.wf(),
        ensures
            res@.len() == self@.len(),
            forall|i: int| 0 <= i < res@.len() ==> *res@[i] == self@[i],
    {
        let mut res: Vec<&T> = Vec::new();
        let mut curr_idx = self.root;
        let ghost mut at: int = 0;
        loop
            invariant
                self.wf(),
                0 <= at < self.slots().len(),
                curr_idx == self.slots()[at],
                res@.len() == at,
                forall|i: int| 0 <= i < at ==> *res@[i] == self@[i],
            ensures
                res@.len() == self@.len(),
                forall|i: int| 0 <= i < res@.len() ==> *res@[i] == self@[i],
            decreases self.slots().len() - at,
        {
            proof {
                assert(self.arena().slot_ok(self.slots(), at));
            }
            match self.owner.nexts[curr_idx] {
                Some(next_idx) => {
                    proof {
                        assert(self.arena().slot_ok(self.slots(), at + 1));
                    }
                    match &self.owner.nodes[next_idx] {
                        Some(node_data) => res.push(node_data),
                        None => break ,
                    }
                    curr_idx = next_idx;
                    proof {
                        at = at + 1;
                    }
                },
                None => break ,
            }
        }
        res
    }

    /// The item at position `num`, counted from 0; none if the list is
    /// shorter.
    pub fn get(&self, num: usize) -> (res: &Option<T>)
        requires
            self.wf(),
        ensures
            *res == if num < self@.len() {
                Some(self@[num as int])
            } else {
                None
            },
    {
        let mut left = num;
        let mut curr_idx = self.root;
        let ghost mut at: int = 0;
        loop
            invariant
                self.wf(),
                0 <= at < self.slots().len(),
                curr_idx == self.slots()[at],
                at + left == num,
            decreases self.slots().len() - at,
        {
            proof {
                assert(self.arena().slot_ok(self.slots(), at));
            }
            match self.owner.nexts[curr_idx] {
                Some(next_idx) => {
                    proof {
                        assert(self.arena().slot_ok(self.slots(), at + 1));
                    }
                    if left == 0 {
                        return &self.owner.nodes[next_idx];
                    }
                    curr_idx = next_idx;
                    left -= 1;
                    proof {
                        at = at + 1;
                    }
                },
                None => {
                    return &None;
                },
            }
        }
    }
}

impl<'a, T> LinkedList<'a, T> {
    /// Every slot that the list has now was one of its slots before, or a
    /// hole, or did not exist.
    pub open spec fn drawn_from(&self, pre: &Self) -> bool {
        forall|i: int|
            0 <= i < self.slots().len() ==> pre.slots().contains(#[trigger] self.slots()[i])
                || pre.arena().holes@.contains(self.slots()[i]) || self.slots()[i]
                >= pre.arena().nodes@.len()
    }

    /// Puts `data` into the list so that it becomes the item at position
    /// `num`. Nothing is put in if the list has no item at that position yet:
    /// there is no appending.
    pub fn insert(&mut self, num: usize, data: T)
        requires
            old(self).wf(),
        ensures
            final(self).wf(),
            final(self)@ == if num < old(self)@.len() {
                old(self)@.insert(num as int, data)
            } else {
                old(self)@
            },
            final(self).head() == old(self).head(),
            final(self).arena().touched_only(&old(self).arena(), old(self).slots()),
            final(self).drawn_from(old(self)),
            *final(final(self).handle()) == *final(old(self).handle()),
    {
        let ghost pre = *self.owner;
        let ghost chain = self.chain@;
        let new_idx = self.owner.make_node(Some(data));
        let ghost mid = *self.owner;
        proof {
            mid.lemma_after_make_node(&pre, new_idx, self.root, chain);
        }
        let mut left = num;
        let mut curr_idx = self.root;
        let ghost mut at: int = 0;
        loop
            invariant_except_break
                *self.owner == mid,
                self.chain@ == chain,
                0 <= at < chain.len(),
                curr_idx == chain[at],
                at + left == num,
            invariant
                self.root == old(self).root,
                *final(self.owner) == *final(old(self).owner),
                mid.wf(),
                mid.holds_list(self.root, chain),
                mid.items(chain) == pre.items(chain),
                mid.touched_only(&pre, chain),
                mid.nodes@[new_idx as int] == Some(data),
                mid.nexts@.len() == mid.nodes@.len(),
                mid.nodes@.len() >= pre.nodes@.len(),
                new_idx < mid.nexts@.len(),
                !chain.contains(new_idx),
                !mid.holes@.contains(new_idx),
                pre.holes@.contains(new_idx) || new_idx >= pre.nodes@.len(),
            ensures
                self.wf(),
                self@ == if num < mid.items(chain).len() {
                    mid.items(chain).insert(num as int, data)
                } else {
                    mid.items(chain)
                },
                self.arena().touched_only(&pre, chain),
                forall|i: int|
                    0 <= i < self.slots().len() ==> chain.contains(#[trigger] self.slots()[i])
                        || self.slots()[i] == new_idx,
            decreases chain.len() - at,
        {
            proof {
                assert(mid.slot_ok(chain, at));
            }
            match self.owner.nexts[curr_idx] {
                Some(next_idx) => {
                    if left == 0 {
                        self.owner.nexts[new_idx] = Some(next_idx);
                        self.owner.nexts[curr_idx] = Some(new_idx);
                        curr_idx = new_idx;
                        proof {
                            let longer = chain.insert(at + 1, new_idx);
                            chain.insert_ensures(at + 1, new_idx);
                            self.chain@ = longer;
                            let post = *self.owner;
                            assert forall|i: int| 0 <= i < longer.len() implies #[trigger] post.slot_ok(
                                longer,
                                i,
                            ) by {
                                if i <= at {
                                    assert(mid.slot_ok(chain, i));
                                    assert(chain.contains(chain[i]));
                                    if i < at {
                                        assert(chain[i] != chain[at]);
                                    }
                                } else if i > at + 1 {
                                    assert(mid.slot_ok(chain, i - 1));
                                    assert(chain.contains(chain[i - 1]));
                                    assert(chain[i - 1] != chain[at]);
                                } else {
                                    assert(mid.slot_ok(chain, at + 1));
                                }
                            }
                            assert(longer.no_duplicates()) by {
                                assert forall|i: int, j: int|
                                    0 <= i < longer.len() && 0 <= j < longer.len() && i
                                        != j implies longer[i] != longer[j] by {
                                    let oi = if i <= at {
                                        i
                                    } else {
                                        i - 1
                                    };
                                    let oj = if j <= at {
                                        j
                                    } else {
                                        j - 1
                                    };
                                    if i != at + 1 {
                                        assert(chain.contains(chain[oi]));
                                    }
                                    if j != at + 1 {
                                        assert(chain.contains(chain[oj]));
                                    }
                                }
                            }
                            let items = mid.items(chain);
                            items.insert_ensures(num as int, data);
                            assert(post.items(longer) =~= items.insert(num as int, data)) by {
                                assert forall|i: int| 0 <= i < longer.len() - 1 implies post.items(
                                    longer,
                                )[i] == items.insert(num as int, data)[i] by {
                                    if i < at {
                                        assert(chain.contains(chain[i + 1]));
                                        assert(items[i] == mid.nodes@[chain[i + 1] as int].unwrap());
                                    } else if i > at {
                                        assert(chain.contains(chain[i]));
                                        assert(items[i - 1] == mid.nodes@[chain[i] as int].unwrap());
                                    }
                                }
                            }
                            assert forall|i: int| 0 <= i < longer.len() implies chain.contains(
                                #[trigger] longer[i],
                            ) || longer[i] == new_idx by {
                                if i <= at {
                                    assert(chain.contains(chain[i]));
                                } else if i > at + 1 {
                                    assert(chain.contains(chain[i - 1]));
                                }
                            }
                            assert(post.touched_only(&pre, chain)) by {
                                assert(chain.contains(chain[at]));
                                assert forall|s: usize|
                                    s < pre.nodes@.len() && !chain.contains(s)
                                        && !pre.holes@.contains(
                                        s,
                                    ) implies #[trigger] post.nodes@[s as int]
                                    == pre.nodes@[s as int] && post.nexts@[s as int]
                                    == pre.nexts@[s as int] by {
                                    assert(mid.nodes@[s as int] == pre.nodes@[s as int]);
                                }
                            }
                        }
                        break ;
                    }
                    curr_idx = next_idx;
                    left -= 1;
                    proof {
                        at = at + 1;
                    }
                },
                None => break ,
            }
        }
        proof {
            assert forall|i: int| 0 <= i < self.slots().len() implies old(self).slots().contains(
                #[trigger] self.slots()[i],
            ) || old(self).arena().holes@.contains(self.slots()[i]) || self.slots()[i]
                >= old(self).arena().nodes@.len() by {}
        }
    }

    /// Takes the item at position `num` out of the list and says whether
    /// there was one. Its slot becomes a hole.
    pub fn del(&mut self, num: usize) -> (deleted: bool)
        requires
            old(self).wf(),
        ensures
            final(self).wf(),
            deleted == (num < old(self)@.len()),
            final(self)@ == if deleted {
                old(self)@.remove(num as int)
            } else {
                old(self)@
            },
            final(self).head() == old(self).head(),
            final(self).arena().touched_only(&old(self).arena(), old(self).slots()),
            final(self).drawn_from(old(self)),
            *final(final(self).handle()) == *final(old(self).handle()),
    {
        let ghost pre = *self.owner;
        let ghost chain = self.chain@;
        let mut left = num;
        let mut curr_idx = self.root;
        let ghost mut at: int = 0;
        loop
            invariant
                *self.owner == pre,
                self.chain@ == chain,
                pre == old(self).arena(),
                chain == old(self).slots(),
                self.root == old(self).root,
                *final(self.owner) == *final(old(self).owner),
                pre.wf(),
                pre.holds_list(self.root, chain),
                0 <= at < chain.len(),
                curr_idx == chain[at],
                at + left == num,
            decreases chain.len() - at,
        {
            proof {
                assert(pre.slot_ok(chain, at));
            }
            match self.owner.nexts[curr_idx] {
                Some(next_idx) => {
                    proof {
                        assert(pre.slot_ok(chain, at + 1));
                        assert(chain[at] != chain[at + 1]);
                    }
                    if left == 0 {
                        self.owner.nexts[curr_idx] = self.owner.nexts[next_idx];
                        self.owner.nexts[next_idx] = None;
                        self.owner.nodes[next_idx] = None;
                        self.owner.holes.push(next_idx);
                        proof {
                            let shorter = chain.remove(at + 1);
                            chain.remove_ensures(at + 1);
                            self.chain@ = shorter;
                            let post = *self.owner;
                            assert forall|i: int| 0 <= i < shorter.len() implies chain.contains(
                                #[trigger] shorter[i],
                            ) && shorter[i] != next_idx by {
                                if i <= at {
                                    assert(chain.contains(chain[i]));
                                    assert(chain[i] != chain[at + 1]);
                                } else {
                                    assert(chain.contains(chain[i + 1]));
                                    assert(chain[i + 1] != chain[at + 1]);
                                }
                            }
                            assert forall|i: int| 0 <= i < shorter.len() implies #[trigger] post.slot_ok(
                                shorter,
                                i,
                            ) by {
                                let o = if i <= at {
                                    i
                                } else {
                                    i + 1
                                };
                                assert(pre.slot_ok(chain, o));
                                assert(shorter[i] == chain[o]);
                                if o != at {
                                    assert(chain[o] != chain[at]);
                                }
                                if post.holes@.contains(shorter[i]) {
                                    let h = choose|h: int|
                                        0 <= h < post.holes@.len() && post.holes@[h] == shorter[i];
                                    if h < pre.holes@.len() {
                                        assert(pre.holes@.contains(pre.holes@[h]));
                                    }
                                }
                            }
                            assert(shorter.no_duplicates());
                            assert(post.holes@.no_duplicates()) by {
                                assert forall|i: int, j: int|
                                    0 <= i < post.holes@.len() && 0 <= j < post.holes@.len() && i
                                        != j implies post.holes@[i] != post.holes@[j] by {
                                    if i < pre.holes@.len() {
                                        assert(pre.holes@.contains(pre.holes@[i]));
                                    }
                                    if j < pre.holes@.len() {
                                        assert(pre.holes@.contains(pre.holes@[j]));
                                    }
                                }
                            }
                            let items = pre.items(chain);
                            items.remove_ensures(num as int);
                            assert(post.items(shorter) =~= items.remove(num as int)) by {
                                assert forall|i: int| 0 <= i < shorter.len() - 1 implies post.items(
                                    shorter,
                                )[i] == items.remove(num as int)[i] by {
                                    assert(shorter[i + 1] != next_idx);
                                    let o = if i < at {
                                        i
                                    } else {
                                        i + 1
                                    };
                                    assert(shorter[i + 1] == chain[o + 1]);
                                    assert(pre.slot_ok(chain, o + 1));
                                    assert(chain[o + 1] != chain[at + 1]);
                                    assert(items[o] == pre.nodes@[chain[o + 1] as int].unwrap());
                                    assert(post.nodes@[chain[o + 1] as int]
                                        == pre.nodes@[chain[o + 1] as int]);
                                }
                            }
                            assert(post.touched_only(&pre, chain)) by {
                                assert(chain.contains(chain[at]));
                                assert(chain.contains(chain[at + 1]));
                                assert forall|i: int| 0 <= i < post.holes@.len() implies pre.holes@.contains(
                                    #[trigger] post.holes@[i],
                                ) || chain.contains(post.holes@[i]) by {
                                    if i < pre.holes@.len() {
                                        assert(pre.holes@.contains(pre.holes@[i]));
                                    }
                                }
                            }
                        }
                        return true;
                    }
                    curr_idx = next_idx;
                    left -= 1;
                    proof {
                        at = at + 1;
                    }
                },
                None => {
                    proof {
                        assert forall|i: int|
                            0 <= i < self.slots().len() implies old(self).slots().contains(
                            #[trigger] self.slots()[i],
                        ) by {}
                    }
                    return false;
                },
            }
        }
    }
}

impl<'a, T> LinkedList<'a, T> {
    /// Cuts the list in front of the item at position `num` and returns the
    /// cut-off part as a list of its own, in the same arena: this list keeps
    /// its first `num` items, the new list has the rest. If this list has no
    /// item at that position, it keeps everything and the new list is empty.
    /// The new list holds the arena until it is gone; what it leaves there is
    /// what this list finds.
    pub fn split(&mut self, num: usize) -> (res: LinkedList<T>)
        requires
            old(self).wf(),
        ensures
            res.wf(),
            res@ == if num < old(self)@.len() {
                old(self)@.skip(num as int)
            } else {
                Seq::<T>::empty()
            },
            final(self).head() == old(self).head(),
            final(self).slots() == if num < old(self)@.len() {
                old(self).slots().take(num + 1)
            } else {
                old(self).slots()
            },
            res.arena().holds_list(final(self).head(), final(self).slots()),
            res.arena().items(final(self).slots()) == if num < old(self)@.len() {
                old(self)@.take(num as int)
            } else {
                old(self)@
            },
            forall|i: int|
                0 <= i < res.slots().len() ==> !final(self).slots().contains(
                    #[trigger] res.slots()[i],
                ),
            res.arena().touched_only(&old(self).arena(), old(self).slots()),
            final(self).arena() == *final(res.handle()),
            *final(final(self).handle()) == *final(old(self).handle()),
    {
        let ghost pre = *self.owner;
        let ghost chain = self.chain@;
        let dummy = self.owner.make_node(None);
        let ghost mid = *self.owner;
        proof {
            mid.lemma_after_make_node(&pre, dummy, self.root, chain);
            assert(mid.nexts@[dummy as int].is_none());
            if pre.holes@.len() > 0 {
                assert(pre.holes@.contains(pre.holes@[pre.holes@.len() - 1]));
            }
        }
        let mut left = num;
        let mut curr_idx = self.root;
        let ghost mut at: int = 0;
        let ghost mut tail: Seq<usize> = seq![dummy];
        loop
            invariant_except_break
                *self.owner == mid,
                self.chain@ == chain,
                0 <= at < chain.len(),
                curr_idx == chain[at],
                at + left == num,
                tail == seq![dummy],
            invariant
                self.root == old(self).root,
                *final(self.owner) == *final(old(self).owner),
                mid.wf(),
                mid.holds_list(self.root, chain),
                mid.items(chain) == pre.items(chain),
                mid.touched_only(&pre, chain),
                mid.nexts@[dummy as int].is_none(),
                mid.nexts@.len() == mid.nodes@.len(),
                dummy < mid.nexts@.len(),
                !chain.contains(dummy),
                !mid.holes@.contains(dummy),
                pre.wf(),
                pre.holes@.contains(dummy) || dummy >= pre.nodes@.len(),
            ensures
                self.owner.wf(),
                self.owner.holds_list(dummy, tail),
                self.owner.holds_list(self.root, self.chain@),
                self.owner.touched_only(&pre, chain),
                self.chain@ == if num < mid.items(chain).len() {
                    chain.take(num + 1)
                } else {
                    chain
                },
                self.owner.items(tail) == if num < mid.items(chain).len() {
                    mid.items(chain).skip(num as int)
                } else {
                    Seq::<T>::empty()
                },
                self.owner.items(self.chain@) == if num < mid.items(chain).len() {
                    mid.items(chain).take(num as int)
                } else {
                    mid.items(chain)
                },
                forall|i: int| 0 <= i < tail.len() ==> !self.chain@.contains(#[trigger] tail[i]),
            decreases chain.len() - at,
        {
            proof {
                assert(mid.slot_ok(chain, at));
            }
            match self.owner.nexts[curr_idx] {
                Some(next_idx) => {
                    if left == 0 {
                        self.owner.nexts[dummy] = Some(next_idx);
                        self.owner.nexts[curr_idx] = None;
                        proof {
                            let front = chain.take(at + 1);
                            let back = seq![dummy] + chain.skip(at + 1);
                            let post = *self.owner;
                            self.chain@ = front;
                            tail = back;
                            assert(chain.contains(chain[at]));
                            assert forall|i: int| 0 <= i < front.len() implies #[trigger] post.slot_ok(
                                front,
                                i,
                            ) && chain.contains(front[i]) by {
                                assert(mid.slot_ok(chain, i));
                                assert(chain.contains(chain[i]));
                                if i < at {
                                    assert(chain[i] != chain[at]);
                                }
                            }
                            assert forall|i: int| 0 <= i < back.len() implies #[trigger] post.slot_ok(
                                back,
                                i,
                            ) by {
                                if i > 0 {
                                    assert(back[i] == chain[at + i]);
                                    assert(mid.slot_ok(chain, at + i));
                                    assert(chain.contains(chain[at + i]));
                                    assert(chain[at + i] != chain[at]);
                                    if i + 1 < back.len() {
                                        assert(back[i + 1] == chain[at + i + 1]);
                                    }
                                } else {
                                    assert(back[1] == chain[at + 1]);
                                }
                            }
                            assert(back.no_duplicates()) by {
                                assert forall|i: int, j: int|
                                    0 <= i < back.len() && 0 <= j < back.len() && i
                                        != j implies back[i] != back[j] by {
                                    if i > 0 {
                                        assert(back[i] == chain[at + i]);
                                        assert(chain.contains(chain[at + i]));
                                    }
                                    if j > 0 {
                                        assert(back[j] == chain[at + j]);
                                        assert(chain.contains(chain[at + j]));
                                    }
                                }
                            }
                            assert(front.no_duplicates());
                            let items = mid.items(chain);
                            assert(post.items(back) =~= items.skip(num as int)) by {
                                assert forall|i: int| 0 <= i < back.len() - 1 implies post.items(
                                    back,
                                )[i] == items.skip(num as int)[i] by {
                                    assert(back[i + 1] == chain[at + i + 1]);
                                }
                            }
                            assert(post.items(front) =~= items.take(num as int));
                            assert forall|i: int| 0 <= i < back.len() implies !front.contains(
                                #[trigger] back[i],
                            ) by {
                                if front.contains(back[i]) {
                                    let k = choose|k: int| 0 <= k < front.len() && front[k] == back[i];
                                    assert(chain.contains(chain[k]));
                                    if i > 0 {
                                        assert(back[i] == chain[at + i]);
                                    }
                                }
                            }
                            assert(post.touched_only(&pre, chain)) by {
                                assert forall|s: usize|
                                    s < pre.nodes@.len() && !chain.contains(s)
                                        && !pre.holes@.contains(
                                        s,
                                    ) implies #[trigger] post.nodes@[s as int]
                                    == pre.nodes@[s as int] && post.nexts@[s as int]
                                    == pre.nexts@[s as int] by {
                                    assert(mid.nodes@[s as int] == pre.nodes@[s as int]);
                                }
                            }
                        }
                        break ;
                    }
                    curr_idx = next_idx;
                    left -= 1;
                    proof {
                        at = at + 1;
                    }
                },
                None => {
                    proof {
                        assert(mid.slot_ok(tail, 0));
                        assert(mid.items(tail) =~= Seq::<T>::empty());
                        assert(tail.contains(dummy)) by {
                            assert(tail[0] == dummy);
                        }
                    }
                    break ;
                },
            }
        }
        LinkedList { root: dummy, owner: self.owner, chain: Ghost(tail) }
    }
}

} // verus!
