//! A mutable directed graph keyed by node names, stored in a dense arena.
//!
//! Nodes live in a contiguous vector and are addressed by their position.
//! Edges are kept twice, as the successor set of their source and as the
//! predecessor set of their destination. A directory maps every name to the
//! position of its node. Deleting a node moves the last node into the freed
//! slot, so positions are only meaningful until the next deletion.

use crate::graph_model::origin;
use crate::graph_model::GraphView;
use std::collections::HashMap;
use std::collections::HashSet;
use vstd::hash_map::StringHashMap;
use vstd::prelude::*;
use vstd::std_specs::hash::spec_hash_keys_iter;
use vstd::std_specs::iter::IteratorSpec;

verus! {

/// One node of the graph: its name, its payload and both of its edge sets,
/// which hold positions in the arena that owns the node.
pub struct Node<T> {
    name: String,
    data: T,
    next_idx: HashSet<usize>,
    prev_idx: HashSet<usize>,
}

impl<T> Node<T> {
    /// The node's name as a sequence of characters.
    pub closed spec fn label(&self) -> Seq<char> {
        self.name@
    }

    /// The node's payload.
    pub closed spec fn payload(&self) -> T {
        self.data
    }

    /// Positions of the nodes this node points to.
    pub closed spec fn outgoing(&self) -> Set<usize> {
        self.next_idx@
    }

    /// Positions of the nodes that point to this node.
    pub closed spec fn incoming(&self) -> Set<usize> {
        self.prev_idx@
    }

    /// The successor set if `forward`, else the predecessor set.
    spec fn links(&self, forward: bool) -> Set<usize> {
        if forward {
            self.outgoing()
        } else {
            self.incoming()
        }
    }

    /// The node's name.
    pub fn name(&self) -> (name: &String)
        ensures
            name@ == self.label(),
    {
        &self.name
    }

    /// The node's payload.
    pub fn data(&self) -> (data: &T)
        ensures
            *data == self.payload(),
    {
        &self.data
    }

    /// The positions of the node's successors.
    pub fn next_idx(&self) -> (set: &HashSet<usize>)
        ensures
            set@ == self.outgoing(),
    {
        &self.next_idx
    }

    /// The positions of the node's predecessors.
    pub fn prev_idx(&self) -> (set: &HashSet<usize>)
        ensures
            set@ == self.incoming(),
    {
        &self.prev_idx
    }

    /// Two nodes that differ at most in the edge set that `forward` selects.
    spec fn same_but_links(&self, other: &Self, forward: bool) -> bool {
        &&& self.label() == other.label()
        &&& self.payload() == other.payload()
        &&& self.links(!forward) == other.links(!forward)
    }
}

/// Where the node that stood at `src` stands once the last node, at `last`,
/// has been moved to position `idx`.
spec fn landing(idx: usize, last: usize, src: usize) -> usize {
    if src == last {
        idx
    } else {
        src
    }
}

/// `set` with `from`, if it is a member, replaced by `to`.
spec fn renamed(set: Set<usize>, from: usize, to: usize) -> Set<usize> {
    if set.contains(from) {
        set.remove(from).insert(to)
    } else {
        set
    }
}

/// A copy of `set`.
fn snapshot(set: &HashSet<usize>) -> (copy: HashSet<usize>)
    ensures
        copy@ == set@,
{
    let mut copy: HashSet<usize> = HashSet::new();
    let ghost elems: Seq<usize> = spec_hash_keys_iter(set).remaining().unref();
    for x in it: set.iter()
        invariant
            it.seq().unref() == elems,
            copy@ == elems.take(it.index()).to_set(),
    {
        proof {
            let n = it.index();
            assert(elems.take(n + 1) =~= elems.take(n).push(elems[n]));
            elems.take(n).lemma_push_to_set_commute(elems[n]);
        }
        copy.insert(*x);
    }
    proof {
        assert(elems.take(elems.len() as int) =~= elems);
    }
    copy
}

/// Whether `x` occurs in `list`.
fn occurs(list: &Vec<usize>, x: usize) -> (found: bool)
    ensures
        found == list@.contains(x),
{
    let mut i: usize = 0;
    while i < list.len()
        invariant
            i <= list@.len(),
            forall|j: int| 0 <= j < i ==> list@[j] != x,
        decreases list@.len() - i,
    {
        if list[i] == x {
            return true;
        }
        i += 1;
    }
    false
}

/// Puts every member of `list` into `marked`.
fn mark(marked: &mut HashSet<usize>, list: &Vec<usize>)
    ensures
        final(marked)@ == old(marked)@.union(list@.to_set()),
{
    let ghost before = marked@;
    let mut i: usize = 0;
    while i < list.len()
        invariant
            i <= list@.len(),
            marked@ == before.union(list@.take(i as int).to_set()),
        decreases list@.len() - i,
    {
        proof {
            assert(list@.take(i + 1) =~= list@.take(i as int).push(list@[i as int]));
            list@.take(i as int).lemma_push_to_set_commute(list@[i as int]);
            assert(before.union(list@.take(i as int).to_set()).insert(list@[i as int])
                =~= before.union(list@.take(i + 1).to_set()));
        }
        marked.insert(list[i]);
        i += 1;
    }
    proof {
        assert(list@.take(list@.len() as int) =~= list@);
    }
}

/// After the node at `idx` has left the arena and the last node has taken
/// its slot: takes `idx` out of one edge set of every neighbour of the
/// deleted node. With `forward` the neighbours are its predecessors and the
/// sets their successor sets; without, its successors and their predecessor
/// sets. A neighbour that stood at `last_idx` is found at `idx`; the deleted
/// node itself, if it was its own neighbour, is no longer there.
fn unlink<T>(
    nodes: &mut Vec<Node<T>>,
    neighbours: &HashSet<usize>,
    idx: usize,
    last_idx: usize,
    forward: bool,
)
    requires
        old(nodes)@.len() == last_idx,
        idx <= last_idx,
        forall|k: int|
            0 <= k < old(nodes)@.len() && (#[trigger] old(nodes)@[k]).links(forward).contains(idx)
                ==> neighbours@.contains(k as usize) || (k == idx && neighbours@.contains(
                last_idx,
            )),
    ensures
        final(nodes)@.len() == old(nodes)@.len(),
        forall|k: int|
            0 <= k < old(nodes)@.len() ==> (#[trigger] final(nodes)@[k]).same_but_links(
                &old(nodes)@[k],
                forward,
            ) && final(nodes)@[k].links(forward) == old(nodes)@[k].links(forward).remove(idx),
{
    let ghost before: Seq<Node<T>> = nodes@;
    let ghost elems: Seq<usize> = spec_hash_keys_iter(neighbours).remaining().unref();
    for src in it: neighbours.iter()
        invariant
            it.seq().unref() == elems,
            elems.to_set() == neighbours@,
            nodes@.len() == before.len(),
            before.len() == last_idx,
            idx <= last_idx,
            forall|k: int|
                0 <= k < before.len() ==> (#[trigger] nodes@[k]).same_but_links(
                    &before[k],
                    forward,
                ) && (nodes@[k].links(forward) == before[k].links(forward) || nodes@[k].links(
                    forward,
                ) == before[k].links(forward).remove(idx)),
            forall|j: int|
                0 <= j < it.index() && landing(idx, last_idx, #[trigger] elems[j]) < before.len()
                    ==> !nodes@[landing(idx, last_idx, elems[j]) as int].links(forward).contains(
                    idx,
                ),
    {
        let ghost now: Seq<Node<T>> = nodes@;
        let pos: usize = if *src == last_idx {
            idx
        } else {
            *src
        };
        if pos < nodes.len() {
            if forward {
                nodes[pos].next_idx.remove(&idx);
            } else {
                nodes[pos].prev_idx.remove(&idx);
            }
            proof {
                assert(nodes@[pos as int].links(forward) == now[pos as int].links(forward).remove(
                    idx,
                ));
                assert(before[pos as int].links(forward).remove(idx).remove(idx)
                    =~= before[pos as int].links(forward).remove(idx));
                assert forall|k: int| 0 <= k < before.len() && k != pos implies nodes@[k]
                    == now[k] by {}
            }
        }
    }
    proof {
        assert forall|k: int| 0 <= k < before.len() implies (#[trigger] nodes@[k]).links(forward)
            == before[k].links(forward).remove(idx) by {
            if nodes@[k].links(forward).contains(idx) {
                assert(before[k].links(forward).contains(idx));
                let s: usize = if neighbours@.contains(k as usize) {
                    k as usize
                } else {
                    last_idx
                };
                assert(elems.to_set().contains(s));
                assert(elems.contains(s));
                let j = choose|j: int| 0 <= j < elems.len() && elems[j] == s;
                assert(landing(idx, last_idx, elems[j]) == k);
            }
            assert(before[k].links(forward).remove(idx) =~= nodes@[k].links(forward));
        }
    }
}

/// After the last node, formerly at `last_idx`, has been moved to `idx`:
/// replaces `last_idx` by `idx` in one edge set of every neighbour of the
/// moved node. With `forward` the neighbours are its predecessors and the
/// sets their successor sets; without, its successors and their predecessor
/// sets. The moved node itself, if it is its own neighbour, is found at
/// `idx`.
fn relink<T>(
    nodes: &mut Vec<Node<T>>,
    neighbours: &HashSet<usize>,
    idx: usize,
    last_idx: usize,
    forward: bool,
)
    requires
        old(nodes)@.len() == last_idx,
        idx < last_idx,
        forall|s: usize| #[trigger]
            neighbours@.contains(s) ==> s <= last_idx && old(nodes)@[landing(
                idx,
                last_idx,
                s,
            ) as int].links(forward).contains(last_idx),
        forall|k: int|
            0 <= k < old(nodes)@.len() && (#[trigger] old(nodes)@[k]).links(forward).contains(
                last_idx,
            ) ==> neighbours@.contains(k as usize) || (k == idx && neighbours@.contains(
                last_idx,
            )),
    ensures
        final(nodes)@.len() == old(nodes)@.len(),
        forall|k: int|
            0 <= k < old(nodes)@.len() ==> (#[trigger] final(nodes)@[k]).same_but_links(
                &old(nodes)@[k],
                forward,
            ) && final(nodes)@[k].links(forward) == renamed(
                old(nodes)@[k].links(forward),
                last_idx,
                idx,
            ),
{
    let ghost before: Seq<Node<T>> = nodes@;
    let ghost elems: Seq<usize> = spec_hash_keys_iter(neighbours).remaining().unref();
    for src in it: neighbours.iter()
        invariant
            it.seq().unref() == elems,
            elems.to_set() == neighbours@,
            nodes@.len() == before.len(),
            before.len() == last_idx,
            idx < last_idx,
            forall|s: usize| #[trigger]
                neighbours@.contains(s) ==> s <= last_idx && before[landing(
                    idx,
                    last_idx,
                    s,
                ) as int].links(forward).contains(last_idx),
            forall|k: int|
                0 <= k < before.len() ==> (#[trigger] nodes@[k]).same_but_links(
                    &before[k],
                    forward,
                ) && (nodes@[k].links(forward) == before[k].links(forward) || nodes@[k].links(
                    forward,
                ) == before[k].links(forward).remove(last_idx).insert(idx)),
            forall|k: int|
                0 <= k < before.len() && !(#[trigger] before[k]).links(forward).contains(last_idx)
                    ==> nodes@[k].links(forward) == before[k].links(forward),
            forall|j: int|
                0 <= j < it.index() ==> nodes@[landing(
                    idx,
                    last_idx,
                    #[trigger] elems[j],
                ) as int].links(forward) == before[landing(idx, last_idx, elems[j]) as int].links(
                    forward,
                ).remove(last_idx).insert(idx),
    {
        let ghost now: Seq<Node<T>> = nodes@;
        let pos: usize = if *src == last_idx {
            idx
        } else {
            *src
        };
        proof {
            assert(elems.to_set().contains(*src));
            assert(neighbours@.contains(*src));
            assert(pos == landing(idx, last_idx, *src));
            assert(pos < nodes@.len());
        }
        if forward {
            nodes[pos].next_idx.remove(&last_idx);
            nodes[pos].next_idx.insert(idx);
        } else {
            nodes[pos].prev_idx.remove(&last_idx);
            nodes[pos].prev_idx.insert(idx);
        }
        proof {
            let goal = before[pos as int].links(forward).remove(last_idx).insert(idx);
            assert(nodes@[pos as int].links(forward) == now[pos as int].links(forward).remove(
                last_idx,
            ).insert(idx));
            assert(goal.remove(last_idx).insert(idx) =~= goal);
            assert(nodes@[pos as int].links(forward) == goal);
            assert forall|k: int| 0 <= k < before.len() && k != pos implies nodes@[k]
                == now[k] by {}
            assert(elems[it.index()] == *src);
            assert forall|j: int| 0 <= j < it.index() + 1 implies nodes@[landing(
                idx,
                last_idx,
                #[trigger] elems[j],
            ) as int].links(forward) == before[landing(idx, last_idx, elems[j]) as int].links(
                forward,
            ).remove(last_idx).insert(idx) by {
                assert(elems.to_set().contains(elems[j]));
                let p = landing(idx, last_idx, elems[j]);
                if p != pos {
                    assert(nodes@[p as int] == now[p as int]);
                }
            }
        }
    }
    proof {
        assert forall|k: int| 0 <= k < before.len() implies (#[trigger] nodes@[k]).links(forward)
            == renamed(before[k].links(forward), last_idx, idx) by {
            if before[k].links(forward).contains(last_idx) {
                let s: usize = if neighbours@.contains(k as usize) {
                    k as usize
                } else {
                    last_idx
                };
                assert(elems.to_set().contains(s));
                assert(elems.contains(s));
                let j = choose|j: int| 0 <= j < elems.len() && elems[j] == s;
                assert(landing(idx, last_idx, elems[j]) == k);
            }
        }
    }
}

/// The arena: every node of the graph, and the directory from names to
/// positions.
pub struct ArenaList<T> {
    pub nodes_names: StringHashMap<usize>,
    pub nodes: Vec<Node<T>>,
}

impl<T> View for ArenaList<T> {
    type V = GraphView<T>;

    /// The graph that the arena holds: names and payloads by position, and
    /// the edges as the successor sets give them.
    open spec fn view(&self) -> GraphView<T> {
        GraphView {
            names: Seq::new(self.size(), |i: int| self.name_at(i)),
            payloads: Seq::new(self.size(), |i: int| self.data_at(i)),
            edges: self.edges(),
        }
    }
}

impl<T> ArenaList<T> {
    /// Number of nodes.
    pub open spec fn size(&self) -> nat {
        self.nodes@.len()
    }

    /// Name of the node at position `i`.
    pub open spec fn name_at(&self, i: int) -> Seq<char> {
        self.nodes@[i].label()
    }

    /// Payload of the node at position `i`.
    pub open spec fn data_at(&self, i: int) -> T {
        self.nodes@[i].payload()
    }

    /// The directory from names to positions.
    pub open spec fn directory(&self) -> Map<Seq<char>, usize> {
        self.nodes_names@
    }

    /// The position that the directory gives for `name`, if any.
    pub open spec fn lookup(&self, name: Seq<char>) -> Option<usize> {
        if self.directory().contains_key(name) {
            Some(self.directory()[name])
        } else {
            None
        }
    }

    /// Node `i` exists and lists `j` among its successors.
    pub open spec fn has_edge(&self, i: usize, j: usize) -> bool {
        i < self.size() && self.nodes@[i as int].outgoing().contains(j)
    }

    /// Node `j` exists and lists `i` among its predecessors.
    pub open spec fn has_back_edge(&self, i: usize, j: usize) -> bool {
        j < self.size() && self.nodes@[j as int].incoming().contains(i)
    }

    /// The edges as pairs of positions, source first.
    pub open spec fn edges(&self) -> Set<(usize, usize)> {
        Set::new(|e: (usize, usize)| self.has_edge(e.0, e.1))
    }

    /// Every node is found under its name, and every directory entry names
    /// the node it points at.
    pub open spec fn directory_consistent(&self) -> bool {
        &&& forall|i: int|
            0 <= i < self.size() ==> self.lookup(#[trigger] self.name_at(i)) == Some(i as usize)
        &&& forall|name: Seq<char>| #[trigger]
            self.directory().contains_key(name) ==> self.directory()[name] < self.size()
                && self.name_at(self.directory()[name] as int) == name
    }

    /// The predecessor sets are the exact transpose of the successor sets.
    /// Since either side names an existing node, no edge dangles.
    pub open spec fn edges_symmetric(&self) -> bool {
        forall|i: usize, j: usize|
            #![trigger self.has_edge(i, j)]
            #![trigger self.has_back_edge(i, j)]
            self.has_edge(i, j) == self.has_back_edge(i, j)
    }

    /// The invariant of the arena.
    pub open spec fn wf(&self) -> bool {
        &&& self.directory_consistent()
        &&& self.edges_symmetric()
    }

    /// In a well-formed arena the model is well formed, and the directory
    /// finds exactly the positions that the model gives.
    pub proof fn lemma_model(&self)
        requires
            self.wf(),
        ensures
            self@.wf(),
            forall|name: Seq<char>| #[trigger] self.lookup(name) == self@.position(name),
    {
        assert(self.nodes.len() == self.size());
        let names = self@.names;
        assert forall|i: int, j: int|
            0 <= i < names.len() && 0 <= j < names.len() && i != j implies names[i]
            != names[j] by {
            assert(self.lookup(self.name_at(i)) == Some(i as usize));
            assert(self.lookup(self.name_at(j)) == Some(j as usize));
        }
        assert forall|i: usize, j: usize| #[trigger]
            self@.edges.contains((i, j)) implies i < self.size() && j < self.size() by {
            assert(self.has_edge(i, j) == self.has_back_edge(i, j));
        }
        assert forall|name: Seq<char>| #[trigger] self.lookup(name) == self@.position(name) by {
            if self.directory().contains_key(name) {
                let d = self.directory()[name];
                assert(names[d as int] == name);
                let i = names.index_of(name);
                assert(self.lookup(self.name_at(i)) == Some(i as usize));
            } else if names.contains(name) {
                let i = names.index_of(name);
                assert(self.lookup(self.name_at(i)) == Some(i as usize));
            }
        }
    }

    /// Edge symmetry: in a well-formed arena, `j` is a successor of the node
    /// at `i` exactly if `i` is a predecessor of the node at `j`, and exactly
    /// then the model has the edge. Both positions then name nodes.
    pub proof fn lemma_edges_symmetric(&self, i: usize, j: usize)
        requires
            self.wf(),
        ensures
            (i < self.size() && self.nodes@[i as int].outgoing().contains(j)) <==> (j < self.size()
                && self.nodes@[j as int].incoming().contains(i)),
            self@.has_edge(i, j) <==> (i < self.size() && self.nodes@[i as int].outgoing().contains(
                j,
            )),
            self@.has_edge(i, j) ==> i < self.size() && j < self.size(),
    {
        assert(self.has_edge(i, j) == self.has_back_edge(i, j));
    }

    /// Directory consistency: in a well-formed arena the directory sends the
    /// name of every node to the node's position, and holds no other entry:
    /// each entry points at a node, and that node has the entry's name.
    pub proof fn lemma_directory_consistent(&self)
        requires
            self.wf(),
        ensures
            forall|i: int|
                0 <= i < self.size() ==> self.directory().contains_key(#[trigger] self.name_at(i))
                    && self.directory()[self.name_at(i)] == i,
            forall|name: Seq<char>| #[trigger]
                self.directory().contains_key(name) ==> self.directory()[name] < self.size()
                    && self.name_at(self.directory()[name] as int) == name,
    {
        assert(self.nodes.len() == self.size());
        assert forall|i: int| 0 <= i < self.size() implies self.directory().contains_key(
            #[trigger] self.name_at(i),
        ) && self.directory()[self.name_at(i)] == i by {
            assert(self.lookup(self.name_at(i)) == Some(i as usize));
        }
    }

    /// An empty arena.
    pub fn new() -> (res: Self)
        ensures
            res.wf(),
            res@ == GraphView::<T>::empty(),
    {
        let res = Self { nodes_names: StringHashMap::new(), nodes: Vec::new() };
        proof {
            assert(res@.names =~= Seq::empty());
            assert(res@.payloads =~= Seq::empty());
            assert(res@.edges =~= Set::empty());
        }
        res
    }

    /// Removes every node and every directory entry.
    pub fn clear(&mut self)
        ensures
            final(self).wf(),
            final(self)@ == GraphView::<T>::empty(),
    {
        self.nodes_names.clear();
        self.nodes.clear();
        proof {
            assert(self@.names =~= Seq::empty());
            assert(self@.payloads =~= Seq::empty());
            assert(self@.edges =~= Set::empty());
        }
    }

    /// Creates the node called `name`, or replaces its payload if it exists.
    /// Returns the node's position: for a new node, the former size. The
    /// edges of an existing node are left as they are.
    pub fn add_node(&mut self, name: &str, data: T) -> (idx: usize)
        requires
            old(self).wf(),
        ensures
            final(self).wf(),
            final(self)@ == old(self)@.with_node(name@, data),
            final(self)@.position(name@) == Some(idx),
            idx == match old(self)@.position(name@) {
                Some(i) => i,
                None => old(self)@.size() as usize,
            },
    {
        let ghost pre = *self;
        proof {
            pre.lemma_model();
        }
        match self.nodes_names.get(name) {
            Some(idx) => {
                let i: usize = *idx;
                self.nodes[i].data = data;
                proof {
                    assert forall|a: usize, b: usize| self.has_edge(a, b) == pre.has_edge(
                        a,
                        b,
                    ) by {}
                    assert forall|a: usize, b: usize| self.has_back_edge(a, b) == pre.has_back_edge(
                        a,
                        b,
                    ) by {}
                    assert forall|k: int| 0 <= k < self.size() implies #[trigger] self.name_at(k)
                        == pre.name_at(k) by {}
                    assert forall|a: usize, b: usize| self.has_edge(a, b) == self.has_back_edge(
                        a,
                        b,
                    ) by {
                        assert(pre.has_edge(a, b) == pre.has_back_edge(a, b));
                    }
                    let post = pre@.with_node(name@, data);
                    assert(self@.names =~= post.names);
                    assert(self@.payloads =~= post.payloads);
                    assert(self@.edges =~= post.edges);
                    self.lemma_model();
                    assert(self.lookup(name@) == Some(i));
                }
                i
            },
            None => {
                let len: usize = self.nodes.len();
                self.nodes_names.insert(name.to_string(), len);
                self.nodes.push(
                    Node {
                        name: name.to_string(),
                        data,
                        next_idx: HashSet::new(),
                        prev_idx: HashSet::new(),
                    },
                );
                proof {
                    assert forall|k: int| 0 <= k < pre.size() implies self.nodes@[k]
                        == pre.nodes@[k] by {}
                    assert forall|a: usize, b: usize| self.has_edge(a, b) == pre.has_edge(
                        a,
                        b,
                    ) by {}
                    assert forall|a: usize, b: usize| self.has_back_edge(a, b) == pre.has_back_edge(
                        a,
                        b,
                    ) by {}
                    assert forall|a: usize, b: usize| self.has_edge(a, b) == self.has_back_edge(
                        a,
                        b,
                    ) by {
                        assert(pre.has_edge(a, b) == pre.has_back_edge(a, b));
                    }
                    assert forall|k: int| 0 <= k < self.size() implies self.lookup(
                        #[trigger] self.name_at(k),
                    ) == Some(k as usize) by {
                        if k < pre.size() {
                            assert(pre.lookup(pre.name_at(k)) == Some(k as usize));
                        }
                    }
                    let post = pre@.with_node(name@, data);
                    assert(self@.names =~= post.names);
                    assert(self@.payloads =~= post.payloads);
                    assert(self@.edges =~= post.edges);
                    self.lemma_model();
                    assert(self.lookup(name@) == Some(len));
                }
                len
            },
        }
    }

    /// The node at position `idx`.
    pub fn get_node(&self, idx: usize) -> (node: &Node<T>)
        requires
            idx < self@.size(),
        ensures
            *node == self.nodes@[idx as int],
    {
        &self.nodes[idx]
    }

    /// The position of the node called `name`, if there is one.
    pub fn get_idx_by_name(&self, name: &str) -> (res: Option<&usize>)
        requires
            self.wf(),
        ensures
            match res {
                Some(i) => self@.position(name@) == Some(*i),
                None => self@.position(name@).is_none(),
            },
    {
        proof {
            self.lemma_model();
        }
        self.nodes_names.get(name)
    }

    /// The name of the node at position `idx`.
    pub fn get_name_by_idx(&self, idx: usize) -> (name: &str)
        requires
            idx < self@.size(),
        ensures
            name@ == self@.names[idx as int],
    {
        self.nodes[idx].name.as_str()
    }

    /// Adds the edge from `src_idx` to `dst_idx`. Adding an edge that is
    /// there changes nothing. An edge from a node to itself is allowed.
    pub fn add_edge(&mut self, src_idx: usize, dst_idx: usize)
        requires
            old(self).wf(),
            src_idx < old(self)@.size(),
            dst_idx < old(self)@.size(),
        ensures
            final(self).wf(),
            final(self)@ == old(self)@.with_edge(src_idx, dst_idx),
    {
        let ghost pre = *self;
        self.nodes[src_idx].next_idx.insert(dst_idx);
        self.nodes[dst_idx].prev_idx.insert(src_idx);
        proof {
            assert forall|i: usize, j: usize| #[trigger]
                self.has_edge(i, j) == (pre.has_edge(i, j) || (i == src_idx && j == dst_idx)) by {}
            assert forall|i: usize, j: usize| #[trigger]
                self.has_back_edge(i, j) == (pre.has_back_edge(i, j) || (i == src_idx && j
                    == dst_idx)) by {}
            assert forall|k: int| 0 <= k < self.size() implies #[trigger] self.name_at(k)
                == pre.name_at(k) && self.data_at(k) == pre.data_at(k) by {}
            assert forall|i: usize, j: usize| self.has_edge(i, j) == self.has_back_edge(i, j) by {
                assert(pre.has_edge(i, j) == pre.has_back_edge(i, j));
            }
            let post = pre@.with_edge(src_idx, dst_idx);
            assert(self@.names =~= post.names);
            assert(self@.payloads =~= post.payloads);
            assert(self@.edges =~= post.edges);
        }
    }

    /// Removes the edge from `src_idx` to `dst_idx` and says whether it was
    /// there. Positions that name no node give `false`.
    pub fn del_edge(&mut self, src_idx: usize, dst_idx: usize) -> (existed: bool)
        requires
            old(self).wf(),
        ensures
            final(self).wf(),
            existed == old(self)@.has_edge(src_idx, dst_idx),
            final(self)@ == old(self)@.without_edge(src_idx, dst_idx),
    {
        let ghost pre = *self;
        if src_idx >= self.nodes.len() || dst_idx >= self.nodes.len() {
            proof {
                assert(pre.has_edge(src_idx, dst_idx) == pre.has_back_edge(src_idx, dst_idx));
                assert(self@.edges =~= pre@.without_edge(src_idx, dst_idx).edges);
            }
            return false;
        }
        let res = self.nodes[src_idx].next_idx.remove(&dst_idx);
        let back = self.nodes[dst_idx].prev_idx.remove(&src_idx);
        proof {
            assert(pre.has_edge(src_idx, dst_idx) == pre.has_back_edge(src_idx, dst_idx));
            assert forall|i: usize, j: usize| #[trigger]
                self.has_edge(i, j) == (pre.has_edge(i, j) && !(i == src_idx && j == dst_idx)) by {}
            assert forall|i: usize, j: usize| #[trigger]
                self.has_back_edge(i, j) == (pre.has_back_edge(i, j) && !(i == src_idx && j
                    == dst_idx)) by {}
            assert forall|k: int| 0 <= k < self.size() implies #[trigger] self.name_at(k)
                == pre.name_at(k) && self.data_at(k) == pre.data_at(k) by {}
            assert forall|i: usize, j: usize| self.has_edge(i, j) == self.has_back_edge(i, j) by {
                assert(pre.has_edge(i, j) == pre.has_back_edge(i, j));
            }
            let post = pre@.without_edge(src_idx, dst_idx);
            assert(self@.names =~= post.names);
            assert(self@.payloads =~= post.payloads);
            assert(self@.edges =~= post.edges);
        }
        back && res
    }

    /// Deletes the node at `idx` with every edge that touches it, and says
    /// whether there was such a node. The last node is moved into the freed
    /// slot, and every edge set that named it by its former position is
    /// corrected, so positions handed out before the call may have gone
    /// stale: the directory gives the current ones.
    pub fn del_node(&mut self, idx: usize) -> (deleted: bool)
        requires
            old(self).wf(),
        ensures
            final(self).wf(),
            deleted == (idx < old(self)@.size()),
            final(self)@ == if deleted {
                old(self)@.without_node(idx)
            } else {
                old(self)@
            },
    {
        if idx >= self.nodes.len() {
            return false;
        }
        let ghost pre = *self;
        let last_idx: usize = self.nodes.len() - 1;

        let node_to_del = self.nodes.swap_remove(idx);
        let ghost moved: Seq<Node<T>> = self.nodes@;
        proof {
            assert forall|k: int| 0 <= k < last_idx implies #[trigger] moved[k]
                == pre.nodes@[origin(pre.size(), idx, k as usize) as int] by {}
            assert forall|k: int|
                0 <= k < last_idx && (#[trigger] moved[k]).links(true).contains(
                    idx,
                ) implies node_to_del.prev_idx@.contains(k as usize) || (k == idx
                && node_to_del.prev_idx@.contains(last_idx)) by {
                let o = origin(pre.size(), idx, k as usize);
                assert(pre.has_edge(o, idx));
                assert(pre.has_back_edge(o, idx));
            }
            assert forall|k: int|
                0 <= k < last_idx && (#[trigger] moved[k]).links(false).contains(
                    idx,
                ) implies node_to_del.next_idx@.contains(k as usize) || (k == idx
                && node_to_del.next_idx@.contains(last_idx)) by {
                let o = origin(pre.size(), idx, k as usize);
                assert(pre.has_back_edge(idx, o));
                assert(pre.has_edge(idx, o));
            }
        }

        // No predecessor of the deleted node points to it any longer,
        unlink(&mut self.nodes, &node_to_del.prev_idx, idx, last_idx, true);
        // and no successor lists it as a predecessor.
        unlink(&mut self.nodes, &node_to_del.next_idx, idx, last_idx, false);
        self.nodes_names.remove(node_to_del.name.as_str());
        let ghost detached: Seq<Node<T>> = self.nodes@;
        proof {
            assert forall|k: int| 0 <= k < last_idx implies (#[trigger] detached[k]).label()
                == moved[k].label() && detached[k].payload() == moved[k].payload()
                && detached[k].outgoing() == moved[k].outgoing().remove(idx)
                && detached[k].incoming() == moved[k].incoming().remove(idx) by {
                assert(detached[k].links(true) == moved[k].links(true).remove(idx));
                assert(detached[k].links(false) == moved[k].links(false).remove(idx));
            }
        }

        if idx == last_idx {
            proof {
                pre.lemma_names_differ(idx as int);
                assert forall|i: usize, j: usize| #[trigger]
                    self.has_edge(i, j) == (i < self.size() && j < self.size() && pre.has_edge(
                        origin(pre.size(), idx, i),
                        origin(pre.size(), idx, j),
                    )) by {
                    if i < self.size() {
                        assert(detached[i as int].outgoing() == moved[i as int].outgoing().remove(
                            idx,
                        ));
                        assert(pre.has_edge(i, j) == pre.has_back_edge(i, j));
                    }
                }
                assert forall|i: usize, j: usize| #[trigger]
                    self.has_back_edge(i, j) == (i < self.size() && j < self.size()
                        && pre.has_back_edge(i, j)) by {
                    if j < self.size() {
                        assert(detached[j as int].incoming() == moved[j as int].incoming().remove(
                            idx,
                        ));
                        assert(pre.has_edge(i, j) == pre.has_back_edge(i, j));
                    }
                }
                assert forall|i: usize, j: usize| self.has_edge(i, j) == self.has_back_edge(
                    i,
                    j,
                ) by {
                    assert(pre.has_edge(i, j) == pre.has_back_edge(i, j));
                }
                assert forall|k: int| 0 <= k < self.size() implies #[trigger] self.name_at(k)
                    == pre.name_at(k) && self.data_at(k) == pre.data_at(k) by {
                    assert(detached[k].label() == moved[k].label());
                }
                assert forall|k: int| 0 <= k < self.size() implies self.lookup(
                    #[trigger] self.name_at(k),
                ) == Some(k as usize) by {
                    assert(pre.lookup(pre.name_at(k)) == Some(k as usize));
                }
                let post = pre@.without_node(idx);
                assert(self@.names =~= post.names);
                assert(self@.payloads =~= post.payloads);
                assert(self@.edges =~= post.edges);
            }
            return true;
        }
        proof {
            assert forall|s: usize| #[trigger]
                detached[idx as int].links(false).contains(s) implies s <= last_idx
                && detached[landing(idx, last_idx, s) as int].links(true).contains(last_idx) by {
                assert(pre.has_back_edge(s, last_idx));
                assert(pre.has_edge(s, last_idx));
                let p = landing(idx, last_idx, s);
                assert(detached[p as int].outgoing() == moved[p as int].outgoing().remove(idx));
                assert(moved[p as int] == pre.nodes@[s as int]);
            }
            assert forall|k: int|
                0 <= k < last_idx && (#[trigger] detached[k]).links(true).contains(
                    last_idx,
                ) implies detached[idx as int].links(false).contains(k as usize) || (k == idx
                && detached[idx as int].links(false).contains(last_idx)) by {
                let o = origin(pre.size(), idx, k as usize);
                assert(detached[k].outgoing() == moved[k].outgoing().remove(idx));
                assert(pre.has_edge(o, last_idx));
                assert(pre.has_back_edge(o, last_idx));
                assert(detached[idx as int].incoming() == moved[idx as int].incoming().remove(
                    idx,
                ));
            }
        }

        // The moved node's predecessors point to its new position,
        let sources = snapshot(&self.nodes[idx].prev_idx);
        relink(&mut self.nodes, &sources, idx, last_idx, true);
        let ghost forwarded: Seq<Node<T>> = self.nodes@;
        proof {
            assert forall|k: int| 0 <= k < last_idx implies (#[trigger] forwarded[k]).label()
                == detached[k].label() && forwarded[k].payload() == detached[k].payload()
                && forwarded[k].incoming() == detached[k].incoming() && forwarded[k].outgoing()
                == renamed(detached[k].outgoing(), last_idx, idx) by {
                assert(forwarded[k].links(true) == renamed(
                    detached[k].links(true),
                    last_idx,
                    idx,
                ));
                assert(forwarded[k].same_but_links(&detached[k], true));
            }
            assert forall|s: usize| #[trigger]
                forwarded[idx as int].links(true).contains(s) implies s <= last_idx
                && forwarded[landing(idx, last_idx, s) as int].links(false).contains(last_idx) by {
                assert(forwarded[idx as int].outgoing() == renamed(
                    detached[idx as int].outgoing(),
                    last_idx,
                    idx,
                ));
                assert(detached[idx as int].outgoing() == moved[idx as int].outgoing().remove(idx));
                let o: usize = if s == idx {
                    last_idx
                } else {
                    s
                };
                assert(pre.has_edge(last_idx, o));
                assert(pre.has_back_edge(last_idx, o));
                let p = landing(idx, last_idx, s);
                assert(detached[p as int].incoming() == moved[p as int].incoming().remove(idx));
                assert(moved[p as int] == pre.nodes@[o as int]);
            }
            assert forall|k: int|
                0 <= k < last_idx && (#[trigger] forwarded[k]).links(false).contains(
                    last_idx,
                ) implies forwarded[idx as int].links(true).contains(k as usize) || (k == idx
                && forwarded[idx as int].links(true).contains(last_idx)) by {
                let o = origin(pre.size(), idx, k as usize);
                assert(detached[k].incoming() == moved[k].incoming().remove(idx));
                assert(pre.has_back_edge(last_idx, o));
                assert(pre.has_edge(last_idx, o));
                assert(forwarded[idx as int].outgoing() == renamed(
                    detached[idx as int].outgoing(),
                    last_idx,
                    idx,
                ));
                assert(detached[idx as int].outgoing() == moved[idx as int].outgoing().remove(idx));
            }
        }
        // and its successors list that position as their predecessor.
        let targets = snapshot(&self.nodes[idx].next_idx);
        relink(&mut self.nodes, &targets, idx, last_idx, false);

        // The directory follows the moved node.
        let moved_name = self.nodes[idx].name.clone();
        self.nodes_names.insert(moved_name, idx);
        proof {
            pre.lemma_names_differ(idx as int);
            pre.lemma_names_differ(last_idx as int);
            assert forall|k: int| 0 <= k < last_idx implies (#[trigger] self.nodes@[k]).label()
                == pre.name_at(origin(pre.size(), idx, k as usize) as int)
                && self.nodes@[k].payload() == pre.data_at(
                origin(pre.size(), idx, k as usize) as int,
            ) && self.nodes@[k].outgoing() == renamed(
                pre.nodes@[origin(pre.size(), idx, k as usize) as int].outgoing().remove(idx),
                last_idx,
                idx,
            ) && self.nodes@[k].incoming() == renamed(
                pre.nodes@[origin(pre.size(), idx, k as usize) as int].incoming().remove(idx),
                last_idx,
                idx,
            ) by {
                assert(self.nodes@[k].links(false) == renamed(
                    forwarded[k].links(false),
                    last_idx,
                    idx,
                ));
                assert(self.nodes@[k].same_but_links(&forwarded[k], false));
                assert(forwarded[k].label() == detached[k].label());
                assert(detached[k].label() == moved[k].label());
            }
            assert forall|i: usize, j: usize| #[trigger]
                self.has_edge(i, j) == (i < self.size() && j < self.size() && pre.has_edge(
                    origin(pre.size(), idx, i),
                    origin(pre.size(), idx, j),
                )) by {
                if i < self.size() {
                    let oi = origin(pre.size(), idx, i);
                    assert(self.nodes@[i as int].outgoing() == renamed(
                        pre.nodes@[oi as int].outgoing().remove(idx),
                        last_idx,
                        idx,
                    ));
                    assert(pre.has_edge(oi, j) == pre.has_back_edge(oi, j));
                }
            }
            assert forall|i: usize, j: usize| #[trigger]
                self.has_back_edge(i, j) == (i < self.size() && j < self.size()
                    && pre.has_back_edge(
                    origin(pre.size(), idx, i),
                    origin(pre.size(), idx, j),
                )) by {
                if j < self.size() {
                    let oj = origin(pre.size(), idx, j);
                    assert(self.nodes@[j as int].incoming() == renamed(
                        pre.nodes@[oj as int].incoming().remove(idx),
                        last_idx,
                        idx,
                    ));
                    assert(pre.has_edge(i, oj) == pre.has_back_edge(i, oj));
                }
            }
            assert forall|i: usize, j: usize| self.has_edge(i, j) == self.has_back_edge(i, j) by {
                assert(pre.has_edge(origin(pre.size(), idx, i), origin(pre.size(), idx, j))
                    == pre.has_back_edge(origin(pre.size(), idx, i), origin(pre.size(), idx, j)));
            }
            assert forall|k: int| 0 <= k < self.size() implies #[trigger] self.name_at(k)
                == pre.name_at(origin(pre.size(), idx, k as usize) as int) && self.data_at(k)
                == pre.data_at(origin(pre.size(), idx, k as usize) as int) by {
                assert(self.nodes@[k].label() == pre.name_at(
                    origin(pre.size(), idx, k as usize) as int,
                ));
            }
            assert forall|k: int| 0 <= k < self.size() implies self.lookup(
                #[trigger] self.name_at(k),
            ) == Some(k as usize) by {
                let o = origin(pre.size(), idx, k as usize);
                assert(pre.lookup(pre.name_at(o as int)) == Some(o));
            }
            let post = pre@.without_node(idx);
            assert(self@.names =~= post.names);
            assert(self@.payloads =~= post.payloads);
            assert(self@.edges =~= post.edges);
        }
        true
    }

    /// No two nodes of a well-formed arena have the same name.
    pub proof fn lemma_names_differ(&self, i: int)
        requires
            self.wf(),
            0 <= i < self.size(),
        ensures
            forall|k: int| 0 <= k < self.size() && k != i ==> self.name_at(k) != self.name_at(i),
    {
        assert(self.nodes.len() == self.size());
        assert forall|k: int| 0 <= k < self.size() && k != i implies self.name_at(k)
            != self.name_at(i) by {
            assert(self.lookup(self.name_at(k)) == Some(k as usize));
            assert(self.lookup(self.name_at(i)) == Some(i as usize));
        }
    }
}

/// The graph: queries and commands on an arena that it borrows exclusively
/// for as long as it lives.
pub struct Graph<'a, T> {
    owner: &'a mut ArenaList<T>,
}

impl<'a, T> View for Graph<'a, T> {
    type V = GraphView<T>;

    /// The graph that the borrowed arena holds.
    open spec fn view(&self) -> GraphView<T> {
        self.arena()@
    }
}

impl<'a, T> Graph<'a, T> {
    /// The arena as the graph currently holds it.
    pub closed spec fn arena(&self) -> ArenaList<T> {
        *self.owner
    }

    /// The borrow through which the graph holds its arena. What the lender
    /// finds in the arena once the graph is gone is `*final` of it.
    pub closed spec fn handle(&self) -> &'a mut ArenaList<T> {
        self.owner
    }

    /// The invariant of the graph: that of its arena.
    pub open spec fn wf(&self) -> bool {
        self.arena().wf()
    }

    /// Once the graph is no longer used, the lender finds the arena as the
    /// graph last held it.
    pub proof fn lemma_released(self)
        requires
            has_resolved(self),
        ensures
            *final(self.handle()) == self.arena(),
    {
    }

    /// A graph on `arena_list`.
    pub fn new(arena_list: &'a mut ArenaList<T>) -> (res: Self)
        ensures
            res.arena() == *old(arena_list),
            *final(res.handle()) == *final(arena_list),
    {
        Self { owner: arena_list }
    }

    /// Creates the node called `name`, or replaces its payload if it exists,
    /// and returns its position.
    pub fn add_node(&mut self, name: &str, data: T) -> (idx: usize)
        requires
            old(self).wf(),
        ensures
            final(self).wf(),
            final(self)@ == old(self)@.with_node(name@, data),
            final(self)@.position(name@) == Some(idx),
            idx == match old(self)@.position(name@) {
                Some(i) => i,
                None => old(self)@.size() as usize,
            },
            *final(final(self).handle()) == *final(old(self).handle()),
    {
        self.owner.add_node(name, data)
    }

    /// Adds the edge from `src_idx` to `dst_idx`, if it is not there.
    pub fn add_edge(&mut self, src_idx: usize, dst_idx: usize)
        requires
            old(self).wf(),
            src_idx < old(self)@.size(),
            dst_idx < old(self)@.size(),
        ensures
            final(self).wf(),
            final(self)@ == old(self)@.with_edge(src_idx, dst_idx),
            *final(final(self).handle()) == *final(old(self).handle()),
    {
        self.owner.add_edge(src_idx, dst_idx);
    }

    /// Makes sure that both nodes exist, giving each its payload, and joins
    /// them by an edge from the first to the second.
    pub fn add_node_and_edge(&mut self, src_name: &str, src_data: T, dst_name: &str, dst_data: T)
        requires
            old(self).wf(),
        ensures
            final(self).wf(),
            final(self)@ == old(self)@.with_named_edge(src_name@, src_data, dst_name@, dst_data),
            final(self)@.has_named_edge(src_name@, dst_name@),
            *final(final(self).handle()) == *final(old(self).handle()),
    {
        let src_idx = self.add_node(src_name, src_data);
        let ghost mid = self@;
        let dst_idx = self.add_node(dst_name, dst_data);
        proof {
            self.arena().lemma_model();
            mid.lemma_with_node_keeps(dst_name@, dst_data, src_name@);
        }
        let ghost both = self@;
        self.add_edge(src_idx, dst_idx);
        proof {
            assert(self@.position(src_name@) == both.position(src_name@));
            assert(self@.position(dst_name@) == both.position(dst_name@));
        }
    }

    /// Number of nodes.
    pub fn node_count(&self) -> (count: usize)
        ensures
            count == self@.size(),
    {
        self.owner.nodes.len()
    }

    /// The node at position `idx`.
    pub fn get_node_by_idx(&self, idx: usize) -> (node: &Node<T>)
        requires
            idx < self@.size(),
        ensures
            *node == self.arena().nodes@[idx as int],
    {
        self.owner.get_node(idx)
    }

    /// The name of the node at position `idx`.
    pub fn get_name_by_idx(&self, idx: usize) -> (name: &String)
        requires
            idx < self@.size(),
        ensures
            name@ == self@.names[idx as int],
    {
        &self.get_node_by_idx(idx).name
    }

    /// The position of the node called `name`, if there is one.
    pub fn get_idx_by_name(&self, name: &str) -> (res: Option<&usize>)
        requires
            self.wf(),
        ensures
            match res {
                Some(i) => self@.position(name@) == Some(*i),
                None => self@.position(name@).is_none(),
            },
    {
        self.owner.get_idx_by_name(name)
    }

    /// Every edge, once, as a pair of positions, source first. The order is
    /// that in which the successor sets hand out their members.
    pub fn get_all_edges(&self) -> (res: Vec<(usize, usize)>)
        ensures
            res@.to_set() == self@.edges,
            res@.no_duplicates(),
    {
        let mut res: Vec<(usize, usize)> = Vec::new();
        let n: usize = self.owner.nodes.len();
        for src_idx in 0..n
            invariant
                n == self.arena().size(),
                res@.no_duplicates(),
                forall|e: (usize, usize)| #[trigger]
                    res@.contains(e) <==> e.0 < src_idx && self.arena().has_edge(e.0, e.1),
        {
            let succ = &self.owner.nodes[src_idx].next_idx;
            let ghost elems: Seq<usize> = spec_hash_keys_iter(succ).remaining().unref();
            for idx in it: succ.iter()
                invariant
                    it.seq().unref() == elems,
                    elems.no_duplicates(),
                    elems.to_set() == succ@,
                    src_idx < n,
                    n == self.arena().size(),
                    succ@ == self.arena().nodes@[src_idx as int].outgoing(),
                    res@.no_duplicates(),
                    forall|e: (usize, usize)| #[trigger]
                        res@.contains(e) <==> (e.0 < src_idx && self.arena().has_edge(e.0, e.1))
                            || (e.0 == src_idx && elems.take(it.index()).contains(e.1)),
            {
                proof {
                    let m = it.index();
                    let now = res@;
                    let added = (src_idx, *idx);
                    assert(elems[m] == *idx);
                    assert(elems.take(m + 1) =~= elems.take(m).push(*idx));
                    assert(!elems.take(m).contains(*idx)) by {
                        if elems.take(m).contains(*idx) {
                            let w = choose|w: int| 0 <= w < m && elems.take(m)[w] == *idx;
                            assert(elems[w] == elems[m]);
                        }
                    }
                    assert(!now.contains(added));
                    assert forall|e: (usize, usize)| #[trigger]
                        now.push(added).contains(e) <==> (e.0 < src_idx && self.arena().has_edge(
                            e.0,
                            e.1,
                        )) || (e.0 == src_idx && elems.take(m + 1).contains(e.1)) by {
                        vstd::seq_lib::lemma_seq_contains_after_push(now, added, e);
                        vstd::seq_lib::lemma_seq_contains_after_push(elems.take(m), *idx, e.1);
                    }
                    assert(now.push(added).no_duplicates()) by {
                        assert forall|i: int, j: int|
                            0 <= i < now.len() + 1 && 0 <= j < now.len() + 1 && i != j implies now.push(
                            added,
                        )[i] != now.push(added)[j] by {
                            if i < now.len() && j < now.len() {
                            } else if i < now.len() {
                                assert(now.contains(now[i]));
                            } else {
                                assert(now.contains(now[j]));
                            }
                        }
                    }
                }
                res.push((src_idx, *idx));
            }
            proof {
                assert(elems.take(elems.len() as int) =~= elems);
                assert forall|e: (usize, usize)| #[trigger]
                    res@.contains(e) <==> e.0 < src_idx + 1 && self.arena().has_edge(e.0, e.1) by {
                    if e.0 == src_idx {
                        assert(elems.contains(e.1) <==> elems.to_set().contains(e.1));
                    }
                }
            }
        }
        proof {
            assert forall|e: (usize, usize)| res@.to_set().contains(e) <==> self@.edges.contains(
                e,
            ) by {}
            assert(res@.to_set() =~= self@.edges);
        }
        res
    }

    /// The positions that one edge leads to from a member of `frontier` and
    /// that are not in `searched`, each once; they are put into `searched`.
    /// A member of `frontier` that names no node has no successors.
    fn expand(&self, frontier: &Vec<usize>, searched: &mut HashSet<usize>) -> (next: Vec<usize>)
        ensures
            next@.no_duplicates(),
            next@.to_set() == self@.successors(frontier@.to_set()).difference(old(searched)@),
            final(searched)@ == old(searched)@.union(next@.to_set()),
    {
        let ghost before = searched@;
        let ghost g = self@;
        let mut next: Vec<usize> = Vec::new();
        let mut n: usize = 0;
        while n < frontier.len()
            invariant
                g == self@,
                n <= frontier@.len(),
                next@.no_duplicates(),
                searched@ == before.union(next@.to_set()),
                next@.to_set() == g.successors(frontier@.take(n as int).to_set()).difference(
                    before,
                ),
            decreases frontier@.len() - n,
        {
            let node_idx: usize = frontier[n];
            let ghost done = g.successors(frontier@.take(n as int).to_set());
            let ghost here = Set::new(|v: usize| g.has_edge(node_idx, v));
            proof {
                assert(frontier@.take(n + 1) =~= frontier@.take(n as int).push(node_idx));
                frontier@.take(n as int).lemma_push_to_set_commute(node_idx);
                assert(g.successors(frontier@.take(n + 1).to_set()) =~= done.union(here)) by {
                    let wider = frontier@.take(n as int).to_set().insert(node_idx);
                    assert forall|v: usize| g.successors(wider).contains(v) implies done.union(
                        here,
                    ).contains(v) by {
                        let i = choose|i: usize| wider.contains(i) && g.has_edge(i, v);
                        if i != node_idx {
                            assert(frontier@.take(n as int).to_set().contains(i));
                        }
                    }
                    assert forall|v: usize| done.union(here).contains(v) implies g.successors(
                        wider,
                    ).contains(v) by {
                        if done.contains(v) {
                            let i = choose|i: usize|
                                frontier@.take(n as int).to_set().contains(i) && g.has_edge(i, v);
                            assert(wider.contains(i));
                        } else {
                            assert(wider.contains(node_idx));
                        }
                    }
                }
            }
            if node_idx < self.owner.nodes.len() {
                let succ = &self.owner.nodes[node_idx].next_idx;
                let ghost elems: Seq<usize> = spec_hash_keys_iter(succ).remaining().unref();
                proof {
                    assert(here =~= succ@);
                }
                for dst in it: succ.iter()
                    invariant
                        it.seq().unref() == elems,
                        elems.to_set() == here,
                        next@.no_duplicates(),
                        searched@ == before.union(next@.to_set()),
                        next@.to_set() == done.union(elems.take(it.index()).to_set()).difference(
                            before,
                        ),
                {
                    let ghost m = it.index();
                    let ghost now = next@;
                    proof {
                        assert(elems[m] == *dst);
                        assert(elems.take(m + 1) =~= elems.take(m).push(*dst));
                        elems.take(m).lemma_push_to_set_commute(*dst);
                    }
                    if !searched.contains(dst) {
                        searched.insert(*dst);
                        next.push(*dst);
                        proof {
                            assert(!now.to_set().contains(*dst));
                            now.lemma_push_to_set_commute(*dst);
                            assert(now.push(*dst).no_duplicates()) by {
                                assert forall|i: int, j: int|
                                    0 <= i < now.len() + 1 && 0 <= j < now.len() + 1 && i
                                        != j implies now.push(*dst)[i] != now.push(*dst)[j] by {
                                    if i < now.len() && j < now.len() {
                                    } else if i < now.len() {
                                        assert(now.contains(now[i]));
                                    } else {
                                        assert(now.contains(now[j]));
                                    }
                                }
                            }
                            assert(next@.to_set() =~= done.union(
                                elems.take(m + 1).to_set(),
                            ).difference(before));
                            assert(searched@ =~= before.union(next@.to_set()));
                        }
                    } else {
                        proof {
                            assert(next@.to_set() =~= done.union(
                                elems.take(m + 1).to_set(),
                            ).difference(before));
                        }
                    }
                }
                proof {
                    assert(elems.take(elems.len() as int) =~= elems);
                }
            } else {
                proof {
                    assert(here =~= Set::<usize>::empty());
                    assert(done.union(here) =~= done);
                }
            }
            n += 1;
        }
        proof {
            assert(frontier@.take(frontier@.len() as int) =~= frontier@);
        }
        next
    }

    /// Breadth-first expansion from `batch_idx`, for at most `max_level`
    /// hops. Hop 0 holds the seeds as given; each later hop holds, once each,
    /// the successors of the hop before that no earlier hop has reached. The
    /// result has an entry for every hop below `max_level` that reached a
    /// position, and no other. No position is in two hops, so the expansion
    /// ends on a graph with cycles too.
    pub fn get_downstream(&self, batch_idx: Vec<usize>, max_level: usize) -> (res: HashMap<
        usize,
        Vec<usize>,
    >)
        ensures
            forall|k: usize| #[trigger]
                res@.contains_key(k) <==> k < max_level && self@.frontier(
                    batch_idx@.to_set(),
                    k as nat,
                ) != Set::<usize>::empty(),
            forall|k: usize| #[trigger]
                res@.contains_key(k) ==> res@[k]@.to_set() == self@.frontier(
                    batch_idx@.to_set(),
                    k as nat,
                ),
            res@.contains_key(0) ==> res@[0]@ == batch_idx@,
            forall|k: usize| #[trigger] res@.contains_key(k) && k > 0 ==> res@[k]@.no_duplicates(),
            forall|k1: usize, k2: usize, v: usize|
                res@.contains_key(k1) && res@.contains_key(k2) && k1 != k2 ==> !(
                #[trigger] res@[k1]@.contains(v) && #[trigger] res@[k2]@.contains(v)),
    {
        let ghost g = self@;
        let ghost seeds = batch_idx@.to_set();
        let ghost given = batch_idx@;
        let mut res: HashMap<usize, Vec<usize>> = HashMap::new();
        let mut q: Vec<usize> = batch_idx;
        let mut searched: HashSet<usize> = HashSet::new();
        let mut level: usize = 0;
        proof {
            assert(searched@.union(q@.to_set()) =~= g.visited(seeds, 0));
        }
        while !q.is_empty() && level < max_level
            invariant
                g == self@,
                seeds == given.to_set(),
                level <= max_level,
                q@.to_set() == g.frontier(seeds, level as nat),
                level == 0 ==> q@ == given,
                level > 0 ==> q@.no_duplicates(),
                searched@.union(q@.to_set()) == g.visited(seeds, level as nat),
                forall|k: usize| #[trigger] res@.contains_key(k) <==> k < level,
                forall|k: usize|
                    k < level ==> (#[trigger] res@[k])@.to_set() == g.frontier(seeds, k as nat)
                        && g.frontier(seeds, k as nat) != Set::<usize>::empty(),
                level > 0 ==> res@[0]@ == given,
                forall|k: usize| 0 < k < level ==> (#[trigger] res@[k])@.no_duplicates(),
            decreases max_level - level,
        {
            let ghost held = res@;
            proof {
                assert(q@.to_set().contains(q@[0]));
            }
            mark(&mut searched, &q);
            let next = self.expand(&q, &mut searched);
            proof {
                let hop = level as nat;
                assert(g.frontier(seeds, hop + 1) == g.successors(
                    g.frontier(seeds, hop),
                ).difference(g.visited(seeds, hop)));
                assert(g.visited(seeds, hop + 1) == g.visited(seeds, hop).union(
                    g.frontier(seeds, hop + 1),
                ));
                assert(searched@.union(next@.to_set()) =~= g.visited(seeds, hop + 1));
            }
            res.insert(level, q);
            q = next;
            level += 1;
            proof {
                assert forall|k: usize| k < level implies (#[trigger] res@[k])@.to_set()
                    == g.frontier(seeds, k as nat) && g.frontier(seeds, k as nat) != Set::<
                    usize,
                >::empty() by {
                    if k + 1 < level {
                        assert(res@[k] == held[k]);
                    }
                }
                assert forall|k: usize| 0 < k < level implies (#[trigger] res@[k])@.no_duplicates(
                ) by {
                    if k + 1 < level {
                        assert(res@[k] == held[k]);
                    }
                }
            }
        }
        proof {
            assert forall|k: usize| #[trigger]
                res@.contains_key(k) <==> k < max_level && g.frontier(seeds, k as nat) != Set::<
                    usize,
                >::empty() by {
                if level <= k < max_level {
                    assert(q@.len() == 0);
                    assert(q@.to_set() =~= Set::<usize>::empty());
                    g.lemma_frontier_stays_empty(seeds, level as nat, k as nat);
                    assert(!res@.contains_key(k));
                } else if k < level {
                    assert(res@.contains_key(k));
                    assert((#[trigger] res@[k])@.to_set() == g.frontier(seeds, k as nat));
                }
            }
            assert forall|k1: usize, k2: usize, v: usize|
                res@.contains_key(k1) && res@.contains_key(k2) && k1 != k2 implies !(
            #[trigger] res@[k1]@.contains(v) && #[trigger] res@[k2]@.contains(v)) by {
                g.lemma_frontiers_disjoint(seeds, k1 as nat, k2 as nat);
                assert(res@[k1]@.to_set().contains(v) == res@[k1]@.contains(v));
                assert(res@[k2]@.to_set().contains(v) == res@[k2]@.contains(v));
            }
        }
        res
    }

    /// The number of hops after which a breadth-first expansion from
    /// `src_idx` first reaches `dst_idx`, if that is less than `max_level`.
    /// The frontier of a hop is tested before it is expanded, so a node is at
    /// distance 0 from itself.
    pub fn get_shortest(&self, src_idx: usize, dst_idx: usize, max_level: usize) -> (res: Option<
        usize,
    >)
        ensures
            res == self@.distance_within(src_idx, dst_idx, max_level as nat),
    {
        let ghost g = self@;
        let ghost seeds = set![src_idx];
        let mut q: Vec<usize> = Vec::new();
        q.push(src_idx);
        let mut searched: HashSet<usize> = HashSet::new();
        let mut level: usize = 0;
        proof {
            assert(q@ =~= seq![src_idx]);
            assert(q@.to_set() =~= seeds) by {
                assert forall|v: usize| q@.to_set().contains(v) <==> seeds.contains(v) by {
                    if seeds.contains(v) {
                        assert(q@[0] == v);
                    }
                }
            }
            assert(searched@.union(q@.to_set()) =~= g.visited(seeds, 0));
        }
        while !q.is_empty() && level < max_level
            invariant
                g == self@,
                seeds == set![src_idx],
                level <= max_level,
                q@.to_set() == g.frontier(seeds, level as nat),
                searched@.union(q@.to_set()) == g.visited(seeds, level as nat),
                forall|k: nat| k < level ==> !(#[trigger] g.frontier(seeds, k)).contains(dst_idx),
            decreases max_level - level,
        {
            if occurs(&q, dst_idx) {
                proof {
                    assert(q@.to_set().contains(dst_idx));
                    g.lemma_distance_within(src_idx, dst_idx, max_level as nat);
                }
                return Some(level);
            }
            proof {
                assert(!q@.to_set().contains(dst_idx));
            }
            mark(&mut searched, &q);
            let next = self.expand(&q, &mut searched);
            proof {
                let hop = level as nat;
                assert(g.frontier(seeds, hop + 1) == g.successors(
                    g.frontier(seeds, hop),
                ).difference(g.visited(seeds, hop)));
                assert(g.visited(seeds, hop + 1) == g.visited(seeds, hop).union(
                    g.frontier(seeds, hop + 1),
                ));
                assert(searched@.union(next@.to_set()) =~= g.visited(seeds, hop + 1));
            }
            q = next;
            level += 1;
        }
        proof {
            assert forall|k: nat| k < max_level implies !(#[trigger] g.frontier(seeds, k)).contains(
                dst_idx,
            ) by {
                if level <= k {
                    assert(q@.len() == 0);
                    assert(q@.to_set() =~= Set::<usize>::empty());
                    g.lemma_frontier_stays_empty(seeds, level as nat, k);
                }
            }
            g.lemma_distance_within(src_idx, dst_idx, max_level as nat);
        }
        None
    }

    /// The names of all nodes, by position.
    pub fn node_names(&self) -> (names: Vec<String>)
        ensures
            names@.map_values(|name: String| name@) == self@.names,
    {
        let mut names: Vec<String> = Vec::new();
        let n: usize = self.owner.nodes.len();
        for idx in 0..n
            invariant
                n == self@.size(),
                names@.len() == idx,
                forall|k: int| 0 <= k < idx ==> (#[trigger] names@[k])@ == self@.names[k],
        {
            names.push(self.owner.nodes[idx].name.clone());
        }
        proof {
            assert(names@.map_values(|name: String| name@) =~= self@.names);
        }
        names
    }

    /// Every edge, once, as the names of its source and its destination, in
    /// the order in which `get_all_edges` gives the edges.
    pub fn edge_names(&self) -> (names: Vec<(String, String)>)
        requires
            self.wf(),
        ensures
            names@.map_values(|pair: (String, String)| (pair.0@, pair.1@)).no_duplicates(),
            names@.map_values(|pair: (String, String)| (pair.0@, pair.1@)).to_set()
                == self@.named_edges(),
    {
        let edges = self.get_all_edges();
        let mut names: Vec<(String, String)> = Vec::new();
        proof {
            self.arena().lemma_model();
            assert forall|k: int| 0 <= k < edges@.len() implies self@.has_edge(
                (#[trigger] edges@[k]).0,
                edges@[k].1,
            ) by {
                assert(edges@.to_set().contains(edges@[k]));
            }
        }
        for k in 0..edges.len()
            invariant
                self@.wf(),
                names@.len() == k,
                forall|i: int|
                    0 <= i < edges@.len() ==> self@.has_edge((#[trigger] edges@[i]).0, edges@[i].1),
                forall|i: int|
                    0 <= i < k ==> (#[trigger] names@[i]).0@ == self@.names[edges@[i].0 as int]
                        && names@[i].1@ == self@.names[edges@[i].1 as int],
        {
            let (src_idx, dst_idx) = edges[k];
            proof {
                assert(self@.has_edge(edges@[k as int].0, edges@[k as int].1));
            }
            let src_name = self.get_name_by_idx(src_idx).clone();
            let dst_name = self.get_name_by_idx(dst_idx).clone();
            names.push((src_name, dst_name));
        }
        proof {
            let g = self@;
            let named = names@.map_values(|pair: (String, String)| (pair.0@, pair.1@));
            assert forall|i: int, j: int|
                0 <= i < named.len() && 0 <= j < named.len() && i != j implies named[i]
                != named[j] by {
                assert(g.has_edge(edges@[i].0, edges@[i].1));
                assert(g.has_edge(edges@[j].0, edges@[j].1));
                assert(edges@[i] != edges@[j]);
            }
            assert forall|pair: (Seq<char>, Seq<char>)|
                named.to_set().contains(pair) <==> g.named_edges().contains(pair) by {
                g.lemma_position(pair.0);
                g.lemma_position(pair.1);
                if named.to_set().contains(pair) {
                    let i = choose|i: int| 0 <= i < named.len() && named[i] == pair;
                    assert(g.has_edge(edges@[i].0, edges@[i].1));
                    assert(g.position(pair.0) == Some(edges@[i].0));
                    assert(g.position(pair.1) == Some(edges@[i].1));
                }
                if g.named_edges().contains(pair) {
                    let e = (g.position(pair.0).unwrap(), g.position(pair.1).unwrap());
                    assert(edges@.to_set().contains(e));
                    let i = choose|i: int| 0 <= i < edges@.len() && edges@[i] == e;
                    assert(named[i] == pair);
                }
            }
            assert(named.to_set() =~= g.named_edges());
        }
        names
    }

    /// Does nothing: the graph lives in memory only.
    pub fn save(&self) {
    }

    /// Does nothing: the graph lives in memory only.
    pub fn load(&mut self)
        ensures
            *final(self) == *old(self),
    {
    }

    /// Deletes the node at `idx` and says whether there was one. Positions
    /// handed out earlier may be stale afterwards.
    pub fn del_node_by_idx(&mut self, idx: usize) -> (deleted: bool)
        requires
            old(self).wf(),
        ensures
            final(self).wf(),
            deleted == (idx < old(self)@.size()),
            final(self)@ == if deleted {
                old(self)@.without_node(idx)
            } else {
                old(self)@
            },
            *final(final(self).handle()) == *final(old(self).handle()),
    {
        self.owner.del_node(idx)
    }

    /// Removes the edge from `src_idx` to `dst_idx` and says whether it was
    /// there.
    pub fn del_edge_by_idx(&mut self, src_idx: usize, dst_idx: usize) -> (existed: bool)
        requires
            old(self).wf(),
        ensures
            final(self).wf(),
            existed == old(self)@.has_edge(src_idx, dst_idx),
            final(self)@ == old(self)@.without_edge(src_idx, dst_idx),
            *final(final(self).handle()) == *final(old(self).handle()),
    {
        self.owner.del_edge(src_idx, dst_idx)
    }

    /// Deletes the node called `name`, with its edges, and says whether
    /// there was one. Afterwards no node has that name.
    pub fn del_node_by_name(&mut self, name: &str) -> (deleted: bool)
        requires
            old(self).wf(),
        ensures
            final(self).wf(),
            deleted == old(self)@.position(name@).is_some(),
            final(self)@ == old(self)@.without_named_node(name@),
            final(self)@.position(name@).is_none(),
            *final(final(self).handle()) == *final(old(self).handle()),
    {
        proof {
            self.arena().lemma_model();
            self@.lemma_without_named_node(name@);
        }
        let found = match self.get_idx_by_name(name) {
            None => None,
            Some(i) => Some(*i),
        };
        match found {
            None => false,
            Some(i) => self.del_node_by_idx(i),
        }
    }

    /// Removes the edge between the nodes called `src_name` and `dst_name`,
    /// and says whether it was there. Nothing changes if either name is
    /// unknown.
    pub fn del_edge_by_name(&mut self, src_name: &str, dst_name: &str) -> (existed: bool)
        requires
            old(self).wf(),
        ensures
            final(self).wf(),
            existed == old(self)@.has_named_edge(src_name@, dst_name@),
            final(self)@ == old(self)@.without_named_edge(src_name@, dst_name@),
            *final(final(self).handle()) == *final(old(self).handle()),
    {
        let src_idx = match self.get_idx_by_name(src_name) {
            None => None,
            Some(i) => Some(*i),
        };
        let dst_idx = match self.get_idx_by_name(dst_name) {
            None => None,
            Some(i) => Some(*i),
        };
        if let (Some(src_idx), Some(dst_idx)) = (src_idx, dst_idx) {
            self.del_edge_by_idx(src_idx, dst_idx)
        } else {
            false
        }
    }

    /// Removes every node and every edge.
    pub fn clear(&mut self)
        ensures
            final(self).wf(),
            final(self)@ == GraphView::<T>::empty(),
            *final(final(self).handle()) == *final(old(self).handle()),
    {
        self.owner.clear()
    }
}

} // verus!
