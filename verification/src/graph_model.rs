//! The mathematical model of the name-keyed graph: what an arena holds, as
//! plain sequences and sets, the effect of each command on it, and the laws
//! that follow.

use vstd::prelude::*;

verus! {

/// A directed graph whose nodes stand in a row. A node is known by its
/// position in the row and by its name; an edge is a pair of positions,
/// source first.
pub struct GraphView<T> {
    /// The name of each node, by position.
    pub names: Seq<Seq<char>>,
    /// The payload of each node, by position.
    pub payloads: Seq<T>,
    /// The edges.
    pub edges: Set<(usize, usize)>,
}

/// Where the node that stands at position `k` after a deletion stood before
/// it, when the node at `idx` was deleted from a row of `old_size` nodes: the
/// last node was moved into the freed slot, every other node stayed.
pub open spec fn origin(old_size: nat, idx: usize, k: usize) -> usize {
    if k == idx {
        (old_size - 1) as usize
    } else {
        k
    }
}

impl<T> GraphView<T> {
    /// The graph without nodes.
    pub open spec fn empty() -> Self {
        GraphView { names: Seq::empty(), payloads: Seq::empty(), edges: Set::empty() }
    }

    /// Number of nodes.
    pub open spec fn size(self) -> nat {
        self.names.len()
    }

    /// Every node has a payload, no two nodes share a name, every position
    /// fits the machine, and every edge joins two existing nodes.
    pub open spec fn wf(self) -> bool {
        &&& self.payloads.len() == self.names.len()
        &&& self.names.len() <= usize::MAX
        &&& self.names.no_duplicates()
        &&& forall|i: usize, j: usize| #[trigger]
            self.edges.contains((i, j)) ==> i < self.size() && j < self.size()
    }

    /// The position of the node called `name`, if there is one.
    pub open spec fn position(self, name: Seq<char>) -> Option<usize> {
        if self.names.contains(name) {
            Some(self.names.index_of(name) as usize)
        } else {
            None
        }
    }

    /// There is an edge from position `i` to position `j`.
    pub open spec fn has_edge(self, i: usize, j: usize) -> bool {
        self.edges.contains((i, j))
    }

    /// There are nodes called `src` and `dst`, and an edge from the first to
    /// the second.
    pub open spec fn has_named_edge(self, src: Seq<char>, dst: Seq<char>) -> bool {
        match (self.position(src), self.position(dst)) {
            (Some(i), Some(j)) => self.has_edge(i, j),
            _ => false,
        }
    }

    /// The edges as pairs of names, source first.
    pub open spec fn named_edges(self) -> Set<(Seq<char>, Seq<char>)> {
        Set::new(|pair: (Seq<char>, Seq<char>)| self.has_named_edge(pair.0, pair.1))
    }

    /// The graph after the node called `name` was given the payload `data`:
    /// an existing node keeps its position and its edges, a new one is put at
    /// the end of the row, without edges.
    pub open spec fn with_node(self, name: Seq<char>, data: T) -> Self {
        match self.position(name) {
            Some(i) => GraphView {
                names: self.names,
                payloads: self.payloads.update(i as int, data),
                edges: self.edges,
            },
            None => GraphView {
                names: self.names.push(name),
                payloads: self.payloads.push(data),
                edges: self.edges,
            },
        }
    }

    /// The graph with the edge from `src` to `dst`.
    pub open spec fn with_edge(self, src: usize, dst: usize) -> Self {
        GraphView { names: self.names, payloads: self.payloads, edges: self.edges.insert((src, dst)) }
    }

    /// The graph without the edge from `src` to `dst`.
    pub open spec fn without_edge(self, src: usize, dst: usize) -> Self {
        GraphView { names: self.names, payloads: self.payloads, edges: self.edges.remove((src, dst)) }
    }

    /// The graph without the node at `idx` and without the edges that touch
    /// it. The last node of the row takes the freed slot (unless it is the
    /// deleted one), and its edges follow it; all other nodes keep their
    /// positions.
    pub open spec fn without_node(self, idx: usize) -> Self {
        let size = self.size();
        GraphView {
            names: Seq::new((size - 1) as nat, |k: int| self.names[origin(size, idx, k as usize) as int]),
            payloads: Seq::new(
                (size - 1) as nat,
                |k: int| self.payloads[origin(size, idx, k as usize) as int],
            ),
            edges: Set::new(
                |e: (usize, usize)|
                    e.0 < size - 1 && e.1 < size - 1 && self.edges.contains(
                        (origin(size, idx, e.0), origin(size, idx, e.1)),
                    ),
            ),
        }
    }

    /// The graph after both named nodes were given their payloads, the
    /// source first, and joined by an edge from the source to the
    /// destination.
    pub open spec fn with_named_edge(
        self,
        src: Seq<char>,
        src_data: T,
        dst: Seq<char>,
        dst_data: T,
    ) -> Self {
        let both = self.with_node(src, src_data).with_node(dst, dst_data);
        both.with_edge(both.position(src).unwrap(), both.position(dst).unwrap())
    }

    /// The graph without the node called `name`; the graph itself if no node
    /// has that name.
    pub open spec fn without_named_node(self, name: Seq<char>) -> Self {
        match self.position(name) {
            Some(i) => self.without_node(i),
            None => self,
        }
    }

    /// The graph without the edge between the nodes called `src` and `dst`;
    /// the graph itself if either name is unknown.
    pub open spec fn without_named_edge(self, src: Seq<char>, dst: Seq<char>) -> Self {
        match (self.position(src), self.position(dst)) {
            (Some(i), Some(j)) => self.without_edge(i, j),
            _ => self,
        }
    }

    /// The position that a name has is that of a node with this name, and the
    /// only one.
    pub proof fn lemma_position(self, name: Seq<char>)
        requires
            self.wf(),
        ensures
            match self.position(name) {
                Some(i) => i < self.size() && self.names[i as int] == name,
                None => forall|k: int| 0 <= k < self.size() ==> self.names[k] != name,
            },
            forall|k: int|
                0 <= k < self.size() && self.names[k] == name ==> self.position(name) == Some(
                    k as usize,
                ),
    {
        if self.names.contains(name) {
            let i = self.names.index_of(name);
            assert(0 <= i < self.names.len() && self.names[i] == name);
        }
    }

    /// Giving a node a payload leaves every other name where it was.
    pub proof fn lemma_with_node_keeps(self, name: Seq<char>, data: T, other: Seq<char>)
        requires
            self.wf(),
            self.position(other).is_some(),
        ensures
            self.with_node(name, data).position(other) == self.position(other),
    {
        self.lemma_position(name);
        self.lemma_position(other);
        let post = self.with_node(name, data);
        let i = self.position(other).unwrap();
        assert(post.names[i as int] == other);
        let j = post.names.index_of(other);
        assert(0 <= j < post.names.len() && post.names[j] == other);
        if j != i {
            if j < self.size() {
                assert(self.names[j] == other);
            } else {
                assert(self.names[i as int] == name);
            }
        }
    }

    /// Deleting a node by its name leaves no node with that name.
    pub proof fn lemma_without_named_node(self, name: Seq<char>)
        requires
            self.wf(),
        ensures
            self.without_named_node(name).position(name).is_none(),
    {
        self.lemma_position(name);
        let post = self.without_named_node(name);
        if post.names.contains(name) {
            let k = post.names.index_of(name);
            assert(0 <= k < post.names.len() && post.names[k] == name);
            match self.position(name) {
                Some(i) => {
                    let o = origin(self.size(), i, k as usize);
                    assert(self.names[o as int] == name);
                },
                None => {},
            }
        }
    }

    /// The positions that one edge leads to from a member of `from`.
    pub open spec fn successors(self, from: Set<usize>) -> Set<usize> {
        Set::new(|j: usize| exists|i: usize| from.contains(i) && self.has_edge(i, j))
    }

    /// The positions first reached after exactly `hop` steps of a
    /// breadth-first expansion from `seeds`: the seeds themselves for hop 0,
    /// then the successors of the previous frontier that no earlier hop has
    /// reached.
    pub open spec fn frontier(self, seeds: Set<usize>, hop: nat) -> Set<usize>
        decreases hop, 0nat,
    {
        if hop == 0 {
            seeds
        } else {
            self.successors(self.frontier(seeds, (hop - 1) as nat)).difference(
                self.visited(seeds, (hop - 1) as nat),
            )
        }
    }

    /// The positions reached from `seeds` after at most `hop` steps.
    pub open spec fn visited(self, seeds: Set<usize>, hop: nat) -> Set<usize>
        decreases hop, 1nat,
    {
        if hop == 0 {
            seeds
        } else {
            self.visited(seeds, (hop - 1) as nat).union(self.frontier(seeds, hop))
        }
    }

    /// Adding an edge a second time changes nothing.
    pub proof fn lemma_with_edge_idempotent(self, src: usize, dst: usize)
        ensures
            self.with_edge(src, dst).with_edge(src, dst) == self.with_edge(src, dst),
    {
        assert(self.with_edge(src, dst).with_edge(src, dst).edges =~= self.with_edge(
            src,
            dst,
        ).edges);
    }

    /// Every command keeps the graph well formed.
    pub proof fn lemma_commands_keep_wf(self, name: Seq<char>, data: T, src: usize, dst: usize)
        requires
            self.wf(),
        ensures
            self.size() < usize::MAX ==> self.with_node(name, data).wf(),
            self.position(name).is_some() ==> self.with_node(name, data).wf(),
            src < self.size() && dst < self.size() ==> self.with_edge(src, dst).wf(),
            self.without_edge(src, dst).wf(),
            src < self.size() ==> self.without_node(src).wf(),
    {
        self.lemma_position(name);
        if src < self.size() {
            let post = self.without_node(src);
            assert forall|i: int, j: int|
                0 <= i < post.names.len() && 0 <= j < post.names.len() && i != j implies post.names[i]
                != post.names[j] by {
                let oi = origin(self.size(), src, i as usize);
                let oj = origin(self.size(), src, j as usize);
                assert(self.names[oi as int] != self.names[oj as int]);
            }
        }
    }

    /// After a node is deleted: no node has its name, every other node is
    /// still found under its own, and two names are joined by an edge exactly
    /// if they were joined before and neither is the deleted one. So every
    /// edge that touched the deleted node is gone, and every other edge is
    /// still there, whatever positions its ends now have.
    pub proof fn lemma_without_node_by_names(self, idx: usize, a: Seq<char>, b: Seq<char>)
        requires
            self.wf(),
            idx < self.size(),
        ensures
            self.without_node(idx).position(self.names[idx as int]).is_none(),
            a != self.names[idx as int] ==> self.without_node(idx).position(a).is_some()
                == self.position(a).is_some(),
            self.without_node(idx).has_named_edge(a, b) == (self.has_named_edge(a, b) && a
                != self.names[idx as int] && b != self.names[idx as int]),
    {
        let gone = self.names[idx as int];
        let post = self.without_node(idx);
        self.lemma_commands_keep_wf(gone, self.payloads[idx as int], idx, idx);
        self.lemma_position(gone);
        self.lemma_without_named_node(gone);
        if a != gone {
            self.lemma_moved_position(idx, a);
        }
        if b != gone {
            self.lemma_moved_position(idx, b);
        }
    }

    /// After the node at `idx` is deleted, a node with another name is found
    /// where it was, or at `idx` if it was the last one.
    pub proof fn lemma_moved_position(self, idx: usize, name: Seq<char>)
        requires
            self.wf(),
            idx < self.size(),
            name != self.names[idx as int],
        ensures
            match self.position(name) {
                Some(i) => self.without_node(idx).position(name) == Some(
                    if i + 1 == self.size() {
                        idx
                    } else {
                        i
                    },
                ) && origin(self.size(), idx, self.without_node(idx).position(name).unwrap()) == i,
                None => self.without_node(idx).position(name).is_none(),
            },
    {
        let post = self.without_node(idx);
        self.lemma_commands_keep_wf(name, self.payloads[idx as int], idx, idx);
        self.lemma_position(name);
        post.lemma_position(name);
        match self.position(name) {
            Some(i) => {
                let k: usize = if i + 1 == self.size() {
                    idx
                } else {
                    i
                };
                assert(post.names[k as int] == name);
            },
            None => {
                if post.names.contains(name) {
                    let k = post.names.index_of(name);
                    assert(0 <= k < post.names.len() && post.names[k] == name);
                    let o = origin(self.size(), idx, k as usize);
                    assert(self.names[o as int] == name);
                }
            },
        }
    }

    /// Nothing is one edge away from no position.
    pub proof fn lemma_successors_of_nothing(self)
        ensures
            self.successors(Set::empty()) == Set::<usize>::empty(),
    {
        assert(self.successors(Set::empty()) =~= Set::<usize>::empty());
    }

    /// Once a frontier is empty, every later one is.
    pub proof fn lemma_frontier_stays_empty(self, seeds: Set<usize>, hop: nat, later: nat)
        requires
            self.frontier(seeds, hop) == Set::<usize>::empty(),
            hop <= later,
        ensures
            self.frontier(seeds, later) == Set::<usize>::empty(),
        decreases later - hop,
    {
        if hop < later {
            self.lemma_frontier_stays_empty(seeds, hop, (later - 1) as nat);
            self.lemma_successors_of_nothing();
            assert(self.frontier(seeds, later) =~= Set::<usize>::empty());
        }
    }

    /// What a hop has first reached counts as visited from then on.
    pub proof fn lemma_frontier_is_visited(self, seeds: Set<usize>, hop: nat, upto: nat)
        requires
            hop <= upto,
        ensures
            self.frontier(seeds, hop).subset_of(self.visited(seeds, upto)),
        decreases upto - hop,
    {
        if hop < upto {
            self.lemma_frontier_is_visited(seeds, hop, (upto - 1) as nat);
        }
    }

    /// No position is in the frontiers of two different hops: a breadth-first
    /// expansion records every position at most once, at the hop that first
    /// reaches it, whatever cycles the graph has.
    pub proof fn lemma_frontiers_disjoint(self, seeds: Set<usize>, a: nat, b: nat)
        requires
            a != b,
        ensures
            self.frontier(seeds, a).disjoint(self.frontier(seeds, b)),
    {
        if a < b {
            self.lemma_frontier_is_visited(seeds, a, (b - 1) as nat);
        } else {
            self.lemma_frontier_is_visited(seeds, b, (a - 1) as nat);
        }
    }

    /// The number of hops after which a breadth-first expansion from `src`
    /// first reaches `dst`, if it is below `limit`.
    pub open spec fn distance_within(self, src: usize, dst: usize, limit: nat) -> Option<usize> {
        if exists|k: nat| k < limit && #[trigger] self.frontier(set![src], k).contains(dst) {
            Some(
                (choose|k: nat| k < limit && #[trigger] self.frontier(set![src], k).contains(dst))
                    as usize,
            )
        } else {
            None
        }
    }

    /// The distance is the one hop whose frontier holds the destination, and
    /// there is none if no frontier below the limit holds it.
    pub proof fn lemma_distance_within(self, src: usize, dst: usize, limit: nat)
        requires
            limit <= usize::MAX,
        ensures
            forall|k: nat|
                k < limit && #[trigger] self.frontier(set![src], k).contains(dst)
                    ==> self.distance_within(src, dst, limit) == Some(k as usize),
            (forall|k: nat| k < limit ==> !(#[trigger] self.frontier(set![src], k)).contains(dst))
                ==> self.distance_within(src, dst, limit).is_none(),
    {
        assert forall|k: nat|
            k < limit && #[trigger] self.frontier(set![src], k).contains(
                dst,
            ) implies self.distance_within(src, dst, limit) == Some(k as usize) by {
            let c = choose|c: nat| c < limit && #[trigger] self.frontier(set![src], c).contains(dst);
            if c != k {
                self.lemma_frontiers_disjoint(set![src], c, k);
            }
        }
    }

    /// There is a walk of exactly `steps` edges from `src` to `dst`.
    pub open spec fn walk(self, src: usize, dst: usize, steps: nat) -> bool
        decreases steps,
    {
        if steps == 0 {
            src == dst
        } else {
            exists|mid: usize|
                self.walk(src, mid, (steps - 1) as nat) && #[trigger] self.has_edge(mid, dst)
        }
    }

    /// A walk followed by an edge is a walk that is one edge longer.
    pub proof fn lemma_walk_extends(self, src: usize, mid: usize, dst: usize, steps: nat)
        requires
            self.walk(src, mid, steps),
            self.has_edge(mid, dst),
        ensures
            self.walk(src, dst, steps + 1),
    {
    }

    /// The node before the last one on a walk of at least one edge.
    pub proof fn lemma_walk_ends(self, src: usize, dst: usize, steps: nat) -> (mid: usize)
        requires
            steps > 0,
            self.walk(src, dst, steps),
        ensures
            self.walk(src, mid, (steps - 1) as nat),
            self.has_edge(mid, dst),
    {
        choose|mid: usize|
            self.walk(src, mid, (steps - 1) as nat) && #[trigger] self.has_edge(mid, dst)
    }

    /// There is a walk of at most `steps` edges from `src` to `dst`.
    pub open spec fn within(self, src: usize, dst: usize, steps: nat) -> bool {
        exists|m: nat| m <= steps && #[trigger] self.walk(src, dst, m)
    }

    /// The frontier of hop `hop` from a single seed holds the positions whose
    /// shortest walk from the seed has exactly `hop` edges, and the visited
    /// set those that a walk of at most `hop` edges reaches.
    pub proof fn lemma_frontier_is_distance(self, src: usize, hop: nat)
        ensures
            forall|v: usize| #[trigger]
                self.frontier(set![src], hop).contains(v) <==> self.walk(src, v, hop) && (hop > 0
                    ==> !self.within(src, v, (hop - 1) as nat)),
            forall|v: usize| #[trigger]
                self.visited(set![src], hop).contains(v) <==> self.within(src, v, hop),
        decreases hop,
    {
        let seeds = set![src];
        if hop == 0 {
            assert forall|v: usize| #[trigger]
                self.visited(seeds, 0).contains(v) <==> self.within(src, v, 0) by {
                if v == src {
                    assert(self.walk(src, v, 0));
                }
            }
        } else {
            let prev = (hop - 1) as nat;
            self.lemma_frontier_is_distance(src, prev);
            assert(self.frontier(seeds, hop) == self.successors(
                self.frontier(seeds, prev),
            ).difference(self.visited(seeds, prev)));
            assert(self.visited(seeds, hop) == self.visited(seeds, prev).union(
                self.frontier(seeds, hop),
            ));
            assert forall|v: usize| #[trigger]
                self.frontier(seeds, hop).contains(v) <==> self.walk(src, v, hop) && !self.within(
                    src,
                    v,
                    prev,
                ) by {
                if self.frontier(seeds, hop).contains(v) {
                    let i = choose|i: usize|
                        self.frontier(seeds, prev).contains(i) && self.has_edge(i, v);
                    self.lemma_walk_extends(src, i, v, prev);
                }
                if self.walk(src, v, hop) && !self.within(src, v, prev) {
                    let mid = self.lemma_walk_ends(src, v, hop);
                    if prev > 0 && self.within(src, mid, (prev - 1) as nat) {
                        let m = choose|m: nat| m <= prev - 1 && #[trigger] self.walk(src, mid, m);
                        self.lemma_walk_extends(src, mid, v, m);
                        assert(m + 1 <= prev && self.walk(src, v, m + 1));
                        assert(self.within(src, v, prev));
                    }
                    assert(self.frontier(seeds, prev).contains(mid));
                    assert(self.successors(self.frontier(seeds, prev)).contains(v));
                }
            }
            assert forall|v: usize| #[trigger]
                self.visited(seeds, hop).contains(v) <==> self.within(src, v, hop) by {
                if self.within(src, v, hop) && !self.within(src, v, prev) {
                    let m = choose|m: nat| m <= hop && #[trigger] self.walk(src, v, m);
                    if m <= prev {
                        assert(self.within(src, v, prev));
                    }
                    assert(m == hop);
                    assert(self.frontier(seeds, hop).contains(v));
                }
                if self.within(src, v, prev) {
                    let m = choose|m: nat| m <= prev && #[trigger] self.walk(src, v, m);
                    assert(m <= hop && self.walk(src, v, m));
                    assert(self.visited(seeds, prev).contains(v));
                }
                if self.frontier(seeds, hop).contains(v) {
                    assert(hop <= hop && self.walk(src, v, hop));
                    assert(self.within(src, v, hop));
                }
                if self.visited(seeds, prev).contains(v) {
                    assert(self.within(src, v, prev));
                    let m = choose|m: nat| m <= prev && #[trigger] self.walk(src, v, m);
                    assert(m <= hop && self.walk(src, v, m));
                    assert(self.within(src, v, hop));
                }
            }
        }
    }

    /// The distance that a bounded breadth-first search finds is the number
    /// of edges of a shortest walk; it finds none exactly if no walk has
    /// fewer edges than the limit.
    pub proof fn lemma_distance_is_shortest_walk(self, src: usize, dst: usize, limit: nat)
        requires
            limit <= usize::MAX,
        ensures
            match self.distance_within(src, dst, limit) {
                Some(d) => d < limit && self.walk(src, dst, d as nat) && forall|m: nat|
                    m < d ==> !#[trigger] self.walk(src, dst, m),
                None => forall|m: nat| m < limit ==> !#[trigger] self.walk(src, dst, m),
            },
    {
        match self.distance_within(src, dst, limit) {
            Some(d) => {
                let k = choose|k: nat|
                    k < limit && #[trigger] self.frontier(set![src], k).contains(dst);
                self.lemma_frontier_is_distance(src, k);
                assert forall|m: nat| m < d implies !#[trigger] self.walk(src, dst, m) by {
                    if self.walk(src, dst, m) {
                        assert(self.within(src, dst, (k - 1) as nat));
                    }
                }
            },
            None => {
                assert forall|m: nat| m < limit implies !#[trigger] self.walk(src, dst, m) by {
                    if self.walk(src, dst, m) {
                        self.lemma_shortest_walk_exists(src, dst, m);
                        let d = choose|d: nat|
                            d <= m && self.walk(src, dst, d) && (d > 0 ==> !self.within(
                                src,
                                dst,
                                (d - 1) as nat,
                            ));
                        self.lemma_frontier_is_distance(src, d);
                        assert(self.frontier(set![src], d).contains(dst));
                    }
                }
            },
        }
    }

    /// Where a walk exists, a shortest one does.
    pub proof fn lemma_shortest_walk_exists(self, src: usize, dst: usize, steps: nat)
        requires
            self.walk(src, dst, steps),
        ensures
            exists|d: nat|
                d <= steps && self.walk(src, dst, d) && (d > 0 ==> !self.within(
                    src,
                    dst,
                    (d - 1) as nat,
                )),
        decreases steps,
    {
        if steps > 0 && self.within(src, dst, (steps - 1) as nat) {
            let m = choose|m: nat| m <= steps - 1 && #[trigger] self.walk(src, dst, m);
            self.lemma_shortest_walk_exists(src, dst, m);
        }
    }
}

} // verus!
