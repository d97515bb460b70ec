//! A directed graph keyed by node names in an arena that only grows: a
//! deleted node leaves its slot empty, and the slot is remembered as a hole.
//! Edges are kept as the successor set of their source only, so an edge into
//! a deleted node stays where it is and leads nowhere.

use std::collections::HashSet;
use vstd::hash_map::StringHashMap;
use vstd::prelude::*;
use vstd::std_specs::hash::spec_hash_keys_iter;
use vstd::std_specs::iter::IteratorSpec;

verus! {

/// One node: its name, its payload and the slots of its successors.
pub struct Node<T> {
    name: String,
    data: T,
    next_idx: HashSet<usize>,
}

impl<T> Node<T> {
    /// The node's name as a sequence of characters.
    pub closed spec fn label(&self) -> Seq<char> {
        self.name@
    }

    /// The node's payload.
    pub closed spec fn payload(&self) -> T {
        self.data
    }

    /// Slots that the node points to.
    pub closed spec fn outgoing(&self) -> Set<usize> {
        self.next_idx@
    }

    /// The node's name.
    pub fn name(&self) -> (name: &String)
        ensures
            name@ == self.label(),
    {
        &self.name
    }

    /// The node's payload.
    pub fn data(&self) -> (data: &T)
        ensures
            *data == self.payload(),
    {
        &self.data
    }

    /// The slots of the node's successors.
    pub fn next_idx(&self) -> (set: &HashSet<usize>)
        ensures
            set@ == self.outgoing(),
    {
        &self.next_idx
    }
}

/// The graph that an arena holds, as plain values.
pub struct SparseView<T> {
    /// The name of the node in each slot; none for an empty slot.
    pub names: Seq<Option<Seq<char>>>,
    /// The payload of the node in each slot; none for an empty slot.
    pub payloads: Seq<Option<T>>,
    /// The edges as pairs of slots, source first. The source is a node; the
    /// destination may be any slot, or none.
    pub edges: Set<(usize, usize)>,
    /// The empty slots, in the order in which they were emptied.
    pub holes: Seq<usize>,
}

impl<T> SparseView<T> {
    /// The graph without slots.
    pub open spec fn empty() -> Self {
        SparseView {
            names: Seq::empty(),
            payloads: Seq::empty(),
            edges: Set::empty(),
            holes: Seq::empty(),
        }
    }

    /// Number of slots.
    pub open spec fn size(self) -> nat {
        self.names.len()
    }

    /// Slot `i` holds a node.
    pub open spec fn live(self, i: int) -> bool {
        0 <= i < self.size() && self.names[i] is Some
    }

    /// The slot of the node called `name`, if there is one.
    pub open spec fn position(self, name: Seq<char>) -> Option<usize> {
        if self.names.contains(Some(name)) {
            Some(self.names.index_of(Some(name)) as usize)
        } else {
            None
        }
    }

    /// Names and payloads go together, no two nodes share a name, every
    /// slot fits the machine, and every edge starts at a node.
    pub open spec fn wf(self) -> bool {
        &&& self.payloads.len() == self.names.len()
        &&& self.names.len() <= usize::MAX
        &&& forall|i: int|
            0 <= i < self.size() ==> ((#[trigger] self.names[i]) is Some
                <==> self.payloads[i] is Some)
        &&& forall|i: int, j: int|
            self.live(i) && self.live(j) && i != j ==> self.names[i] != self.names[j]
        &&& forall|i: usize, j: usize| #[trigger] self.edges.contains((i, j)) ==> self.live(i as int)
    }

    /// The graph after the node called `name` was asked for: if there is
    /// none, one with the payload `data` is put into a new slot at the end; a
    /// node that exists stays as it is.
    pub open spec fn with_node(self, name: Seq<char>, data: T) -> Self {
        if self.position(name) is Some {
            self
        } else {
            SparseView {
                names: self.names.push(Some(name)),
                payloads: self.payloads.push(Some(data)),
                edges: self.edges,
                holes: self.holes,
            }
        }
    }

    /// The graph with the edge from `src` to `dst`, if slot `src` holds a
    /// node.
    pub open spec fn with_edge(self, src: usize, dst: usize) -> Self {
        if self.live(src as int) {
            SparseView {
                names: self.names,
                payloads: self.payloads,
                edges: self.edges.insert((src, dst)),
                holes: self.holes,
            }
        } else {
            self
        }
    }

    /// The graph without the edge from `src` to `dst`.
    pub open spec fn without_edge(self, src: usize, dst: usize) -> Self {
        SparseView {
            names: self.names,
            payloads: self.payloads,
            edges: self.edges.remove((src, dst)),
            holes: self.holes,
        }
    }

    /// The graph after slot `idx` was emptied: the node is gone and with it
    /// the edges that start there; the slot is the newest hole. Edges that
    /// end there stay. Nothing changes if the slot was empty.
    pub open spec fn without_node(self, idx: usize) -> Self {
        if self.live(idx as int) {
            SparseView {
                names: self.names.update(idx as int, None),
                payloads: self.payloads.update(idx as int, None),
                edges: self.edges.filter(|e: (usize, usize)| e.0 != idx),
                holes: self.holes.push(idx),
            }
        } else {
            self
        }
    }

    /// The graph after both named nodes were asked for, the source first, and
    /// joined by an edge from the source to the destination.
    pub open spec fn with_named_edge(
        self,
        src: Seq<char>,
        src_data: T,
        dst: Seq<char>,
        dst_data: T,
    ) -> Self {
        let both = self.with_node(src, src_data).with_node(dst, dst_data);
        both.with_edge(both.position(src).unwrap(), both.position(dst).unwrap())
    }

    /// The graph after the slot of the node called `name` was emptied; the
    /// graph itself if no node has that name.
    pub open spec fn without_named_node(self, name: Seq<char>) -> Self {
        match self.position(name) {
            Some(i) => self.without_node(i),
            None => self,
        }
    }

    /// The graph without the edge between the nodes called `src` and `dst`;
    /// the graph itself if either name is unknown.
    pub open spec fn without_named_edge(self, src: Seq<char>, dst: Seq<char>) -> Self {
        match (self.position(src), self.position(dst)) {
            (Some(i), Some(j)) => self.without_edge(i, j),
            _ => self,
        }
    }

    /// There are nodes called `src` and `dst`, and an edge from the first to
    /// the second.
    pub open spec fn has_named_edge(self, src: Seq<char>, dst: Seq<char>) -> bool {
        match (self.position(src), self.position(dst)) {
            (Some(i), Some(j)) => self.edges.contains((i, j)),
            _ => false,
        }
    }

    /// The edges between nodes, as pairs of names, source first.
    pub open spec fn named_edges(self) -> Set<(Seq<char>, Seq<char>)> {
        Set::new(|pair: (Seq<char>, Seq<char>)| self.has_named_edge(pair.0, pair.1))
    }

    /// Asking for a node that is there, or making one, leaves every other
    /// name where it was.
    pub proof fn lemma_with_node_keeps(self, name: Seq<char>, data: T, other: Seq<char>)
        requires
            self.wf(),
            self.position(other).is_some(),
        ensures
            self.with_node(name, data).position(other) == self.position(other),
    {
        self.lemma_position(name);
        self.lemma_position(other);
        let post = self.with_node(name, data);
        let i = self.position(other).unwrap();
        assert(post.names[i as int] == Some(other));
        let j = post.names.index_of(Some(other));
        assert(0 <= j < post.names.len() && post.names[j] == Some(other));
        if j != i {
            if j < self.size() {
                assert(self.names[j] == Some(other));
            } else {
                assert(self.names[i as int] == Some(name));
            }
        }
    }

    /// After a node was deleted by its name, no node has that name.
    pub proof fn lemma_without_named_node(self, name: Seq<char>)
        requires
            self.wf(),
        ensures
            self.without_named_node(name).position(name).is_none(),
    {
        self.lemma_position(name);
        let post = self.without_named_node(name);
        if post.names.contains(Some(name)) {
            let k = post.names.index_of(Some(name));
            assert(0 <= k < post.names.len() && post.names[k] == Some(name));
            assert(self.names[k] == Some(name));
        }
    }

    /// The position that a name has is that of a node with this name, and
    /// the only one.
    pub proof fn lemma_position(self, name: Seq<char>)
        requires
            self.wf(),
        ensures
            match self.position(name) {
                Some(i) => self.live(i as int) && self.names[i as int] == Some(name),
                None => forall|k: int| 0 <= k < self.size() ==> self.names[k] != Some(name),
            },
            forall|k: int|
                0 <= k < self.size() && self.names[k] == Some(name) ==> self.position(name)
                    == Some(k as usize),
    {
        if self.names.contains(Some(name)) {
            let i = self.names.index_of(Some(name));
            assert(0 <= i < self.names.len() && self.names[i] == Some(name));
            assert forall|k: int|
                0 <= k < self.size() && self.names[k] == Some(name) implies self.position(name)
                == Some(k as usize) by {
                assert(self.live(k) && self.live(i));
            }
        }
    }
}

/// The arena: the slots, the directory from names to slots, and the holes.
pub struct ArenaList<T> {
    pub nodes_names: StringHashMap<usize>,
    pub nodes: Vec<Option<Node<T>>>,
    pub holes: Vec<usize>,
}

impl<T> View for ArenaList<T> {
    type V = SparseView<T>;

    /// The graph that the arena holds.
    open spec fn view(&self) -> SparseView<T> {
        SparseView {
            names: Seq::new(
                self.nodes@.len(),
                |i: int|
                    match self.nodes@[i] {
                        Some(node) => Some(node.label()),
                        None => None,
                    },
            ),
            payloads: Seq::new(
                self.nodes@.len(),
                |i: int|
                    match self.nodes@[i] {
                        Some(node) => Some(node.payload()),
                        None => None,
                    },
            ),
            edges: Set::new(|e: (usize, usize)| self.has_edge(e.0, e.1)),
            holes: self.holes@,
        }
    }
}

impl<T> ArenaList<T> {
    /// Slot `i` holds a node that lists `j` among its successors.
    pub open spec fn has_edge(&self, i: usize, j: usize) -> bool {
        i < self.nodes@.len() && match self.nodes@[i as int] {
            Some(node) => node.outgoing().contains(j),
            None => false,
        }
    }

    /// The slot that the directory gives for `name`, if any.
    pub open spec fn lookup(&self, name: Seq<char>) -> Option<usize> {
        if self.nodes_names@.contains_key(name) {
            Some(self.nodes_names@[name])
        } else {
            None
        }
    }

    /// The invariant of the arena: every node is found under its name, and
    /// every directory entry points at the node of that name.
    pub open spec fn wf(&self) -> bool {
        &&& forall|i: int|
            0 <= i < self.nodes@.len() ==> (#[trigger] self.nodes@[i] matches Some(node)
                ==> self.lookup(node.label()) == Some(i as usize))
        &&& forall|name: Seq<char>| #[trigger]
            self.nodes_names@.contains_key(name) ==> self.nodes_names@[name] < self.nodes@.len()
                && (self.nodes@[self.nodes_names@[name] as int] matches Some(node) && node.label()
                == name)
    }

    /// In a well-formed arena the model is well formed, and the directory
    /// finds exactly the slots that the model gives.
    pub proof fn lemma_model(&self)
        requires
            self.wf(),
        ensures
            self@.wf(),
            forall|name: Seq<char>| #[trigger] self.lookup(name) == self@.position(name),
    {
        assert(self.nodes.len() == self.nodes@.len());
        let g = self@;
        assert forall|i: int, j: int| g.live(i) && g.live(j) && i != j implies g.names[i]
            != g.names[j] by {
            assert(self.nodes@[i] is Some && self.nodes@[j] is Some);
        }
        assert forall|name: Seq<char>| #[trigger] self.lookup(name) == g.position(name) by {
            if self.nodes_names@.contains_key(name) {
                let d = self.nodes_names@[name];
                assert(g.names[d as int] == Some(name));
                let i = g.names.index_of(Some(name));
                assert(self.nodes@[i] is Some);
            } else if g.names.contains(Some(name)) {
                let i = g.names.index_of(Some(name));
                assert(self.nodes@[i] is Some);
            }
        }
    }

    /// An arena without slots.
    pub fn new() -> (res: Self)
        ensures
            res.wf(),
            res@ == SparseView::<T>::empty(),
    {
        let res = Self { nodes_names: StringHashMap::new(), nodes: Vec::new(), holes: Vec::new() };
        proof {
            assert(res@.names =~= Seq::empty());
            assert(res@.payloads =~= Seq::empty());
            assert(res@.edges =~= Set::empty());
        }
        res
    }

    /// Removes all slots, the directory and the holes.
    pub fn clear(&mut self)
        ensures
            final(self).wf(),
            final(self)@ == SparseView::<T>::empty(),
    {
        self.nodes_names.clear();
        self.nodes.clear();
        self.holes.clear();
        proof {
            assert(self@.names =~= Seq::empty());
            assert(self@.payloads =~= Seq::empty());
            assert(self@.edges =~= Set::empty());
        }
    }

    /// The slot of the node called `name`. If there is no such node, one
    /// with the payload `data` is made in a new slot at the end; if there is
    /// one, it stays as it is and `data` is not used.
    pub fn make_or_get_node(&mut self, name: &str, data: T) -> (idx: usize)
        requires
            old(self).wf(),
        ensures
            final(self).wf(),
            final(self)@ == old(self)@.with_node(name@, data),
            final(self)@.position(name@) == Some(idx),
            idx == match old(self)@.position(name@) {
                Some(i) => i,
                None => old(self)@.size() as usize,
            },
    {
        let ghost pre = *self;
        proof {
            pre.lemma_model();
        }
        if self.nodes_names.contains_key(name) {
            return *(self.nodes_names.get(name).unwrap());
        } else {
            let len: usize = self.nodes.len();
            self.nodes_names.insert(name.to_string(), len);
            self.nodes.push(Some(Node { name: name.to_string(), data, next_idx: HashSet::new() }));
            proof {
                assert forall|k: int| 0 <= k < pre.nodes@.len() implies self.nodes@[k]
                    == pre.nodes@[k] by {}
                assert forall|i: int| 0 <= i < self.nodes@.len() implies (
                #[trigger] self.nodes@[i] matches Some(node) ==> self.lookup(node.label()) == Some(
                    i as usize,
                )) by {
                    if i < pre.nodes@.len() {
                        assert(self.nodes@[i] == pre.nodes@[i]);
                        if let Some(node) = pre.nodes@[i] {
                            assert(pre.lookup(node.label()) == Some(i as usize));
                        }
                    }
                }
                let post = pre@.with_node(name@, data);
                assert(self@.names =~= post.names);
                assert(self@.payloads =~= post.payloads);
                assert(self@.edges =~= post.edges) by {
                    assert forall|a: usize, b: usize| self.has_edge(a, b) == pre.has_edge(a, b) by {}
                }
                self.lemma_model();
                assert(self.lookup(name@) == Some(len));
            }
            len
        }
    }

    /// The slot of the node called `name`, if there is one.
    pub fn get_idx_by_name(&self, name: &str) -> (res: Option<&usize>)
        requires
            self.wf(),
        ensures
            match res {
                Some(i) => self@.position(name@) == Some(*i),
                None => self@.position(name@).is_none(),
            },
    {
        proof {
            self.lemma_model();
        }
        self.nodes_names.get(name)
    }

    /// Adds the edge from `src_idx` to `dst_idx`, if slot `src_idx` holds a
    /// node, and says whether it does. The destination is not looked at.
    pub fn add_next_idx(&mut self, src_idx: usize, dst_idx: usize) -> (done: bool)
        requires
            old(self).wf(),
            src_idx < old(self)@.size(),
        ensures
            final(self).wf(),
            done == old(self)@.live(src_idx as int),
            final(self)@ == old(self)@.with_edge(src_idx, dst_idx),
    {
        let ghost pre = *self;
        let done = match &mut self.nodes[src_idx] {
            None => false,
            Some(node) => {
                node.next_idx.insert(dst_idx);
                true
            },
        };
        proof {
            self.lemma_same_nodes(&pre);
            let post = pre@.with_edge(src_idx, dst_idx);
            assert(self@.edges =~= post.edges) by {
                assert forall|a: usize, b: usize|
                    self.has_edge(a, b) == (pre.has_edge(a, b) || (done && a == src_idx && b
                        == dst_idx)) by {}
            }
        }
        done
    }

    /// Empties slot `idx` and says whether it held a node. The node's name
    /// leaves the directory and the slot becomes the newest hole. Edges
    /// that lead to the slot are left as they are.
    pub fn del_node_by_idx(&mut self, idx: usize) -> (deleted: bool)
        requires
            old(self).wf(),
            idx < old(self)@.size(),
        ensures
            final(self).wf(),
            deleted == old(self)@.live(idx as int),
            final(self)@ == old(self)@.without_node(idx),
    {
        let ghost pre = *self;
        match &self.nodes[idx] {
            None => false,
            Some(node) => {
                self.nodes_names.remove(node.name.as_str());
                self.nodes[idx] = None;
                self.holes.push(idx);
                proof {
                    pre.lemma_model();
                    assert forall|i: int| 0 <= i < self.nodes@.len() implies (
                    #[trigger] self.nodes@[i] matches Some(other) ==> self.lookup(other.label())
                        == Some(i as usize)) by {
                        if i != idx {
                            assert(self.nodes@[i] == pre.nodes@[i]);
                            if let Some(other) = pre.nodes@[i] {
                                assert(pre.lookup(other.label()) == Some(i as usize));
                                assert(pre.lookup(node.label()) == Some(idx));
                            }
                        }
                    }
                    assert forall|name: Seq<char>| #[trigger]
                        self.nodes_names@.contains_key(name) implies self.nodes_names@[name]
                        < self.nodes@.len() && (self.nodes@[self.nodes_names@[name] as int] matches Some(
                        other,
                    ) && other.label() == name) by {
                        assert(pre.nodes_names@.contains_key(name));
                        assert(pre.lookup(node.label()) == Some(idx));
                    }
                    let post = pre@.without_node(idx);
                    assert(self@.names =~= post.names);
                    assert(self@.payloads =~= post.payloads);
                    assert(self@.edges =~= post.edges) by {
                        assert forall|a: usize, b: usize|
                            self.has_edge(a, b) == (pre.has_edge(a, b) && a != idx) by {}
                    }
                }
                true
            },
        }
    }

    /// Removes the edge from `src_idx` to `dst_idx` and says whether it was
    /// there.
    pub fn del_edge_by_idx(&mut self, src_idx: usize, dst_idx: usize) -> (existed: bool)
        requires
            old(self).wf(),
            src_idx < old(self)@.size(),
        ensures
            final(self).wf(),
            existed == old(self)@.edges.contains((src_idx, dst_idx)),
            final(self)@ == old(self)@.without_edge(src_idx, dst_idx),
    {
        let ghost pre = *self;
        let existed = match &mut self.nodes[src_idx] {
            None => false,
            Some(node) => node.next_idx.remove(&dst_idx),
        };
        proof {
            self.lemma_same_nodes(&pre);
            let post = pre@.without_edge(src_idx, dst_idx);
            assert(self@.edges =~= post.edges) by {
                assert forall|a: usize, b: usize|
                    self.has_edge(a, b) == (pre.has_edge(a, b) && !(a == src_idx && b
                        == dst_idx)) by {}
            }
        }
        existed
    }

    /// Does nothing: the holes are not closed.
    pub fn compact(&mut self)
        ensures
            *final(self) == *old(self),
    {
    }

    /// Where only successor sets differ, the directory still fits, and the
    /// model has the same names, payloads and holes.
    proof fn lemma_same_nodes(&self, pre: &Self)
        requires
            pre.wf(),
            self.nodes_names@ == pre.nodes_names@,
            self.holes@ == pre.holes@,
            self.nodes@.len() == pre.nodes@.len(),
            forall|i: int|
                0 <= i < self.nodes@.len() ==> match (#[trigger] self.nodes@[i], pre.nodes@[i]) {
                    (Some(a), Some(b)) => a.label() == b.label() && a.payload() == b.payload(),
                    (None, None) => true,
                    _ => false,
                },
        ensures
            self.wf(),
            self@.names == pre@.names,
            self@.payloads == pre@.payloads,
            self@.holes == pre@.holes,
    {
        assert forall|i: int| 0 <= i < self.nodes@.len() implies (
        #[trigger] self.nodes@[i] matches Some(node) ==> self.lookup(node.label()) == Some(
            i as usize,
        )) by {
            if let Some(node) = pre.nodes@[i] {
                assert(pre.lookup(node.label()) == Some(i as usize));
            }
        }
        assert forall|name: Seq<char>| #[trigger]
            self.nodes_names@.contains_key(name) implies self.nodes_names@[name] < self.nodes@.len()
            && (self.nodes@[self.nodes_names@[name] as int] matches Some(node) && node.label()
            == name) by {
            let d = pre.nodes_names@[name];
            assert(self.nodes@[d as int] is Some);
        }
        assert(self@.names =~= pre@.names);
        assert(self@.payloads =~= pre@.payloads);
    }
}

/// The graph: queries and commands on an arena that it borrows exclusively
/// for as long as it lives.
pub struct Graph<'a, T> {
    owner: &'a mut ArenaList<T>,
}

impl<'a, T> View for Graph<'a, T> {
    type V = SparseView<T>;

    /// The graph that the borrowed arena holds.
    open spec fn view(&self) -> SparseView<T> {
        self.arena()@
    }
}

impl<'a, T> Graph<'a, T> {
    /// The arena as the graph currently holds it.
    pub closed spec fn arena(&self) -> ArenaList<T> {
        *self.owner
    }

    /// The borrow through which the graph holds its arena. What the lender
    /// finds in the arena once the graph is gone is `*final` of it.
    pub closed spec fn handle(&self) -> &'a mut ArenaList<T> {
        self.owner
    }

    /// The invariant of the graph: that of its arena.
    pub open spec fn wf(&self) -> bool {
        self.arena().wf()
    }

    /// Once the graph is no longer used, the lender finds the arena as the
    /// graph last held it.
    pub proof fn lemma_released(self)
        requires
            has_resolved(self),
        ensures
            *final(self.handle()) == self.arena(),
    {
    }

    /// A graph on `arena_list`.
    pub fn new(arena_list: &'a mut ArenaList<T>) -> (res: Self)
        ensures
            res.arena() == *old(arena_list),
            *final(res.handle()) == *final(arena_list),
    {
        Self { owner: arena_list }
    }

    /// The slot of the node called `name`, which is made with the payload
    /// `data` if there is none.
    pub fn add_node(&mut self, name: &str, data: T) -> (idx: usize)
        requires
            old(self).wf(),
        ensures
            final(self).wf(),
            final(self)@ == old(self)@.with_node(name@, data),
            final(self)@.position(name@) == Some(idx),
            idx == match old(self)@.position(name@) {
                Some(i) => i,
                None => old(self)@.size() as usize,
            },
            *final(final(self).handle()) == *final(old(self).handle()),
    {
        self.owner.make_or_get_node(name, data)
    }

    /// Makes sure that both nodes exist, making each with its payload if it
    /// is missing, and joins them by an edge from the first to the second.
    pub fn add_edge(&mut self, src_name: &str, src_data: T, dst_name: &str, dst_data: T)
        requires
            old(self).wf(),
        ensures
            final(self).wf(),
            final(self)@ == old(self)@.with_named_edge(src_name@, src_data, dst_name@, dst_data),
            *final(final(self).handle()) == *final(old(self).handle()),
    {
        let src_idx = self.add_node(src_name, src_data);
        let ghost mid = self@;
        let dst_idx = self.add_node(dst_name, dst_data);
        proof {
            self.arena().lemma_model();
            mid.lemma_with_node_keeps(dst_name@, dst_data, src_name@);
            self@.lemma_position(src_name@);
        }
        self.owner.add_next_idx(src_idx, dst_idx);
    }

    /// Number of slots, empty ones included.
    pub fn slot_count(&self) -> (count: usize)
        ensures
            count == self@.size(),
    {
        self.owner.nodes.len()
    }

    /// The node in slot `idx`, if the slot holds one.
    pub fn get_node_by_idx(&self, idx: usize) -> (node: Option<&Node<T>>)
        requires
            idx < self@.size(),
        ensures
            match node {
                Some(found) => self.arena().nodes@[idx as int] == Some(*found),
                None => self.arena().nodes@[idx as int].is_none(),
            },
    {
        return (&self.owner.nodes[idx]).as_ref();
    }

    /// The name of the node in slot `idx`, if the slot holds one.
    pub fn get_name_by_idx(&self, idx: usize) -> (name: Option<&String>)
        requires
            idx < self@.size(),
        ensures
            match name {
                Some(found) => self@.names[idx as int] == Some(found@),
                None => self@.names[idx as int].is_none(),
            },
    {
        match self.get_node_by_idx(idx) {
            None => None,
            Some(node) => Some(&node.name),
        }
    }

    /// The slot of the node called `name`, if there is one.
    pub fn get_idx_by_name(&self, name: &str) -> (res: Option<&usize>)
        requires
            self.wf(),
        ensures
            match res {
                Some(i) => self@.position(name@) == Some(*i),
                None => self@.position(name@).is_none(),
            },
    {
        self.owner.get_idx_by_name(name)
    }

    /// Every edge, once, as a pair of slots, source first: the nodes are
    /// taken in the order of their slots, the successors of each in the order
    /// in which its successor set hands them out.
    pub fn get_edges(&self) -> (res: Vec<(usize, usize)>)
        ensures
            res@.to_set() == self@.edges,
            res@.no_duplicates(),
    {
        let mut res: Vec<(usize, usize)> = Vec::new();
        let n: usize = self.owner.nodes.len();
        for src_idx in 0..n
            invariant
                n == self.arena().nodes@.len(),
                res@.no_duplicates(),
                forall|e: (usize, usize)| #[trigger]
                    res@.contains(e) <==> e.0 < src_idx && self.arena().has_edge(e.0, e.1),
        {
            match &self.owner.nodes[src_idx] {
                None => {},
                Some(node) => {
                    let succ = &node.next_idx;
                    let ghost elems: Seq<usize> = spec_hash_keys_iter(succ).remaining().unref();
                    for idx in it: succ.iter()
                        invariant
                            it.seq().unref() == elems,
                            elems.no_duplicates(),
                            elems.to_set() == succ@,
                            src_idx < n,
                            n == self.arena().nodes@.len(),
                            self.arena().nodes@[src_idx as int] == Some(*node),
                            succ@ == node.outgoing(),
                            res@.no_duplicates(),
                            forall|e: (usize, usize)| #[trigger]
                                res@.contains(e) <==> (e.0 < src_idx && self.arena().has_edge(
                                    e.0,
                                    e.1,
                                )) || (e.0 == src_idx && elems.take(it.index()).contains(e.1)),
                    {
                        proof {
                            let m = it.index();
                            let now = res@;
                            let added = (src_idx, *idx);
                            assert(elems[m] == *idx);
                            assert(elems.take(m + 1) =~= elems.take(m).push(*idx));
                            assert(!elems.take(m).contains(*idx)) by {
                                if elems.take(m).contains(*idx) {
                                    let w = choose|w: int| 0 <= w < m && elems.take(m)[w] == *idx;
                                    assert(elems[w] == elems[m]);
                                }
                            }
                            assert(!now.contains(added));
                            assert forall|e: (usize, usize)| #[trigger]
                                now.push(added).contains(e) <==> (e.0 < src_idx
                                    && self.arena().has_edge(e.0, e.1)) || (e.0 == src_idx
                                    && elems.take(m + 1).contains(e.1)) by {
                                vstd::seq_lib::lemma_seq_contains_after_push(now, added, e);
                                vstd::seq_lib::lemma_seq_contains_after_push(
                                    elems.take(m),
                                    *idx,
                                    e.1,
                                );
                            }
                            assert(now.push(added).no_duplicates()) by {
                                assert forall|i: int, j: int|
                                    0 <= i < now.len() + 1 && 0 <= j < now.len() + 1 && i
                                        != j implies now.push(added)[i] != now.push(added)[j] by {
                                    if i < now.len() && j < now.len() {
                                    } else if i < now.len() {
                                        assert(now.contains(now[i]));
                                    } else {
                                        assert(now.contains(now[j]));
                                    }
                                }
                            }
                        }
                        res.push((src_idx, *idx));
                    }
                    proof {
                        assert(elems.take(elems.len() as int) =~= elems);
                        assert forall|e: (usize, usize)| #[trigger]
                            res@.contains(e) <==> e.0 < src_idx + 1 && self.arena().has_edge(
                                e.0,
                                e.1,
                            ) by {
                            if e.0 == src_idx {
                                assert(elems.contains(e.1) <==> elems.to_set().contains(e.1));
                            }
                        }
                    }
                },
            }
        }
        proof {
            assert forall|e: (usize, usize)| res@.to_set().contains(e) <==> self@.edges.contains(
                e,
            ) by {}
            assert(res@.to_set() =~= self@.edges);
        }
        res
    }

    /// The edges that lead to a node, as the names of source and
    /// destination, in the order of `get_edges`. An edge into an empty slot
    /// has no destination to name and is left out.
    pub fn edge_names(&self) -> (names: Vec<(String, String)>)
        requires
            self.wf(),
        ensures
            forall|k: int|
                0 <= k < names@.len() ==> self@.has_named_edge(
                    (#[trigger] names@[k]).0@,
                    names@[k].1@,
                ),
            forall|a: Seq<char>, b: Seq<char>|
                self@.has_named_edge(a, b) ==> exists|k: int|
                    0 <= k < names@.len() && (#[trigger] names@[k]).0@ == a && names@[k].1@ == b,
    {
        let edges = self.get_edges();
        let mut names: Vec<(String, String)> = Vec::new();
        let n: usize = self.owner.nodes.len();
        proof {
            self.arena().lemma_model();
        }
        for k in 0..edges.len()
            invariant
                self.wf(),
                self@.wf(),
                n == self@.size(),
                edges@.to_set() == self@.edges,
                forall|i: int|
                    0 <= i < names@.len() ==> self@.has_named_edge(
                        (#[trigger] names@[i]).0@,
                        names@[i].1@,
                    ),
                forall|e: int|
                    0 <= e < k && self@.live(edges@[e].0 as int) && self@.live(
                        (#[trigger] edges@[e]).1 as int,
                    ) ==> exists|i: int|
                        0 <= i < names@.len() && (#[trigger] names@[i]).0@
                            == self@.names[edges@[e].0 as int].unwrap() && names@[i].1@
                            == self@.names[edges@[e].1 as int].unwrap(),
        {
            let (src_idx, dst_idx) = edges[k];
            let ghost listed = names@;
            proof {
                assert(edges@.to_set().contains(edges@[k as int]));
                assert(self@.edges.contains((src_idx, dst_idx)));
                assert(self.arena().has_edge(src_idx, dst_idx));
            }
            if dst_idx < n {
                let src_node = self.get_node_by_idx(src_idx);
                let dst_node = self.get_node_by_idx(dst_idx);
                match dst_node {
                    None => {},
                    Some(dst_node) => {
                        let pair = (src_node.unwrap().name.clone(), dst_node.name.clone());
                        proof {
                            self@.lemma_position(pair.0@);
                            self@.lemma_position(pair.1@);
                            assert(self@.names[src_idx as int] == Some(pair.0@));
                            assert(self@.names[dst_idx as int] == Some(pair.1@));
                        }
                        names.push(pair);
                        proof {
                            assert(names@[listed.len() as int] == pair);
                            assert forall|i: int| 0 <= i < listed.len() implies names@[i]
                                == listed[i] by {}
                        }
                    },
                }
            }
            proof {
                assert forall|e: int|
                    0 <= e < k + 1 && self@.live(edges@[e].0 as int) && self@.live(
                        (#[trigger] edges@[e]).1 as int,
                    ) implies exists|i: int|
                    0 <= i < names@.len() && (#[trigger] names@[i]).0@
                        == self@.names[edges@[e].0 as int].unwrap() && names@[i].1@
                        == self@.names[edges@[e].1 as int].unwrap() by {
                    if e < k {
                        let i = choose|i: int|
                            0 <= i < listed.len() && (#[trigger] listed[i]).0@
                                == self@.names[edges@[e].0 as int].unwrap() && listed[i].1@
                                == self@.names[edges@[e].1 as int].unwrap();
                        assert(names@[i] == listed[i]);
                    } else {
                        assert(names@[listed.len() as int].0@
                            == self@.names[src_idx as int].unwrap());
                    }
                }
            }
        }
        proof {
            assert forall|a: Seq<char>, b: Seq<char>| self@.has_named_edge(a, b) implies exists|
                k: int,
            |
                0 <= k < names@.len() && (#[trigger] names@[k]).0@ == a && names@[k].1@ == b by {
                self@.lemma_position(a);
                self@.lemma_position(b);
                let e = (self@.position(a).unwrap(), self@.position(b).unwrap());
                assert(edges@.to_set().contains(e));
                let w = choose|w: int| 0 <= w < edges@.len() && edges@[w] == e;
                assert(self@.live(edges@[w].0 as int) && self@.live(edges@[w].1 as int));
            }
        }
        names
    }

    /// Empties slot `idx` and says whether it held a node.
    pub fn del_node_by_idx(&mut self, idx: usize) -> (deleted: bool)
        requires
            old(self).wf(),
            idx < old(self)@.size(),
        ensures
            final(self).wf(),
            deleted == old(self)@.live(idx as int),
            final(self)@ == old(self)@.without_node(idx),
            *final(final(self).handle()) == *final(old(self).handle()),
    {
        self.owner.del_node_by_idx(idx)
    }

    /// Removes the edge from `src_idx` to `dst_idx` and says whether it was
    /// there.
    pub fn del_edge_by_idx(&mut self, src_idx: usize, dst_idx: usize) -> (existed: bool)
        requires
            old(self).wf(),
            src_idx < old(self)@.size(),
        ensures
            final(self).wf(),
            existed == old(self)@.edges.contains((src_idx, dst_idx)),
            final(self)@ == old(self)@.without_edge(src_idx, dst_idx),
            *final(final(self).handle()) == *final(old(self).handle()),
    {
        self.owner.del_edge_by_idx(src_idx, dst_idx)
    }

    /// Deletes the node called `name` and says whether there was one.
    /// Afterwards no node has that name.
    pub fn del_node_by_name(&mut self, name: &str) -> (deleted: bool)
        requires
            old(self).wf(),
        ensures
            final(self).wf(),
            deleted == old(self)@.position(name@).is_some(),
            final(self)@ == old(self)@.without_named_node(name@),
            final(self)@.position(name@).is_none(),
            *final(final(self).handle()) == *final(old(self).handle()),
    {
        proof {
            self.arena().lemma_model();
            self@.lemma_position(name@);
            self@.lemma_without_named_node(name@);
        }
        let found = match self.get_idx_by_name(name) {
            None => None,
            Some(i) => Some(*i),
        };
        match found {
            None => false,
            Some(i) => self.del_node_by_idx(i),
        }
    }

    /// Removes the edge between the nodes called `src_name` and `dst_name`,
    /// and says whether it was there. Nothing changes if either name is
    /// unknown.
    pub fn del_edge_by_name(&mut self, src_name: &str, dst_name: &str) -> (existed: bool)
        requires
            old(self).wf(),
        ensures
            final(self).wf(),
            existed == old(self)@.has_named_edge(src_name@, dst_name@),
            final(self)@ == old(self)@.without_named_edge(src_name@, dst_name@),
            *final(final(self).handle()) == *final(old(self).handle()),
    {
        proof {
            self.arena().lemma_model();
            self@.lemma_position(src_name@);
        }
        let src_idx = match self.get_idx_by_name(src_name) {
            None => None,
            Some(i) => Some(*i),
        };
        let dst_idx = match self.get_idx_by_name(dst_name) {
            None => None,
            Some(i) => Some(*i),
        };

        if let (Some(src_idx), Some(dst_idx)) = (src_idx, dst_idx) {
            self.del_edge_by_idx(src_idx, dst_idx)
        } else {
            false
        }
    }
}

} // verus!
