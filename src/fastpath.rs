//! Builds a Hamiltonian path of a tournament by inserting the nodes one at a
//! time: at the front, at the back, or after the first node of the path that
//! has an edge to the new node and is followed by a node that the new node has
//! an edge to.
use crate::perm_ll::PLinkedList;
use crate::tngraph::{
    adjacency,
    contains_id,
    edge,
    edges_form_tournament,
    is_hamiltonian_path,
    lemma_tournament_edges,
    tournament_property,
    NodeID,
    TournamentGraph,
};
use vstd::prelude::*;

verus! {

/// The first index `i >= from` of `p` whose successor `p[i + 1]` lies in
/// `out`; the last index of `p` if there is none.
pub open spec fn first_switch(out: Seq<usize>, p: Seq<usize>, from: int) -> int
    decreases p.len() - from,
{
    if from + 1 >= p.len() {
        p.len() - 1
    } else if out.contains(p[from + 1]) {
        from
    } else {
        first_switch(out, p, from + 1)
    }
}

/// The path `p` with node `k` inserted: at the front if `k` has an edge to
/// the head, else at the back if the tail has an edge to `k`, else right
/// after the first switch from head to tail.
pub open spec fn insert_node(adj: Seq<Seq<usize>>, p: Seq<usize>, k: usize) -> Seq<usize> {
    if edge(adj, k, p[0]) {
        seq![k] + p
    } else if edge(adj, p.last(), k) {
        p.push(k)
    } else {
        p.insert(first_switch(adj[k as int], p, 0) + 1, k)
    }
}

/// The path over nodes `0..=k` after node `k` has been inserted.
pub open spec fn path_through(adj: Seq<Seq<usize>>, k: nat) -> Seq<usize>
    decreases k,
{
    if k == 0 {
        seq![0usize]
    } else {
        insert_node(adj, path_through(adj, (k - 1) as nat), k as usize)
    }
}

/// The path that the builder returns for the graph with adjacency `adj`.
pub open spec fn hampath(adj: Seq<Seq<usize>>) -> Seq<usize> {
    path_through(adj, (adj.len() - 1) as nat)
}

/// `p` holds distinct nodes below `bound`, each step along an edge of `adj`.
pub open spec fn is_path_below(adj: Seq<Seq<usize>>, p: Seq<usize>, bound: nat) -> bool {
    &&& p.no_duplicates()
    &&& forall|m: int| 0 <= m < p.len() ==> (#[trigger] p[m]) < bound
    &&& forall|m: int| 0 <= m < p.len() - 1 ==> #[trigger] edge(adj, p[m], p[m + 1])
}

/// Solves for a Hamiltonian path of one tournament graph.
pub struct HampathBuilder {
    num_nodes: usize,
    last_node: usize,
    cur_path: PLinkedList,
    graph: TournamentGraph,
}

impl HampathBuilder {
    /// The graph being solved.
    pub closed spec fn graph(&self) -> TournamentGraph {
        self.graph
    }

    /// The builder holds a tournament, and its path is the one built over
    /// nodes `0..=placed`.
    closed spec fn wf_at(&self, placed: nat) -> bool {
        &&& self.graph.wf()
        &&& tournament_property(self.graph@)
        &&& self.num_nodes == self.graph@.len()
        &&& placed < self.num_nodes
        &&& self.cur_path.wf()
        &&& self.cur_path.capacity() == self.num_nodes
        &&& self.cur_path@ == path_through(self.graph@, placed)
    }

    /// The builder's state is consistent.
    pub closed spec fn wf(&self) -> bool {
        self.wf_at(self.last_node as nat)
    }

    /// A builder for the tournament on `n` nodes with the given edges.
    pub fn new(n: usize, edges: Vec<(NodeID, NodeID)>) -> (r: Self)
        requires
            n >= 1,
            edges_form_tournament(n as nat, edges@),
        ensures
            r.wf(),
            r.graph().wf(),
            tournament_property(r.graph()@),
            r.graph()@ == adjacency(n as nat, edges@),
    {
        let ghost e = edges@;
        let graph = TournamentGraph::new(n, edges).unwrap();
        proof {
            lemma_tournament_edges(n as nat, e);
        }
        Self::from_graph(graph)
    }

    /// A builder for a tournament on `n` nodes whose edge directions come
    /// from coins.
    pub fn new_random(n: usize) -> (r: Self)
        requires
            n >= 1,
        ensures
            r.wf(),
            r.graph().wf(),
            tournament_property(r.graph()@),
            r.graph()@.len() == n,
    {
        let graph = TournamentGraph::new_random(n);
        Self::from_graph(graph)
    }

    /// A builder for a tournament graph.
    pub fn from_graph(graph: TournamentGraph) -> (r: Self)
        requires
            graph.wf(),
            tournament_property(graph@),
            graph@.len() >= 1,
        ensures
            r.wf(),
            r.graph() == graph,
            r.graph().wf(),
            tournament_property(r.graph()@),
    {
        let n = graph.len();
        let r = Self { num_nodes: n, last_node: 0, cur_path: PLinkedList::new(n, 0), graph };
        assert(r.cur_path@ == path_through(r.graph@, 0));
        r
    }

    /// Solves for the path and hands it back together with the graph.
    pub fn solution_pair(self) -> (r: (Vec<NodeID>, TournamentGraph))
        requires
            self.wf(),
        ensures
            r.0@ == hampath(self.graph()@),
            is_hamiltonian_path(self.graph()@, r.0@),
            r.1 == self.graph(),
            r.1.wf(),
            tournament_property(r.1@),
    {
        let mut this = self;
        let path = this.solve_path();
        let graph = this.into_graph();
        (path, graph)
    }

    /// Gives the graph back.
    pub fn into_graph(self) -> (r: TournamentGraph)
        requires
            self.wf(),
        ensures
            r == self.graph(),
            r.wf(),
            tournament_property(r@),
    {
        self.graph
    }

    /// Inserts the remaining nodes in order and returns the path, head first.
    pub fn solve_path(&mut self) -> (r: Vec<NodeID>)
        requires
            old(self).wf(),
        ensures
            final(self).wf(),
            final(self).graph() == old(self).graph(),
            final(self).graph().wf(),
            tournament_property(final(self).graph()@),
            r@ == hampath(old(self).graph()@),
            is_hamiltonian_path(old(self).graph()@, r@),
    {
        while self.last_node + 1 < self.num_nodes
            invariant
                self.wf(),
                self.graph == old(self).graph,
            decreases self.num_nodes - self.last_node,
        {
            self.extend(self.last_node + 1);
            self.last_node += 1;
        }
        proof {
            lemma_path_through(self.graph@, self.last_node as nat);
        }
        self.cur_path.to_vec()
    }

    /// The node after which to insert a node whose out-neighbours are
    /// `neighs`: the first node of `path` whose successor lies in `neighs`.
    fn search_for_insert_point(neighs: Vec<NodeID>, path: Vec<NodeID>) -> (r: NodeID)
        requires
            exists|i: int| 0 <= i < path@.len() - 1 && neighs@.contains(#[trigger] path@[i + 1]),
        ensures
            r == path@[first_switch(neighs@, path@, 0)],
            neighs@.contains(path@[first_switch(neighs@, path@, 0) + 1]),
            forall|i: int|
                0 <= i < first_switch(neighs@, path@, 0) ==> !neighs@.contains(
                    #[trigger] path@[i + 1],
                ),
    {
        let mut i: usize = 0;
        loop
            invariant
                i + 2 <= path@.len(),
                exists|m: int|
                    i <= m < path@.len() - 1 && neighs@.contains(#[trigger] path@[m + 1]),
                forall|m: int| 0 <= m < i ==> !neighs@.contains(#[trigger] path@[m + 1]),
                first_switch(neighs@, path@, 0) == first_switch(neighs@, path@, i as int),
            decreases path@.len() - i,
        {
            let (prev_i, next_i) = (path[i], path[i + 1]);
            if contains_id(&neighs, next_i) {
                proof {
                    lemma_first_switch_at(neighs@, path@, 0, i as int);
                }
                return prev_i;
            }
            assert(i + 2 < path@.len()) by {
                let m = choose|m: int|
                    i <= m < path@.len() - 1 && neighs@.contains(#[trigger] path@[m + 1]);
                assert(m != i);
            }
            i += 1;
        }
    }

    /// Inserts node `new_nid` into the path over the nodes before it.
    fn extend(&mut self, new_nid: NodeID)
        requires
            new_nid >= 1,
            old(self).wf_at((new_nid - 1) as nat),
            new_nid < old(self).num_nodes,
        ensures
            final(self).wf_at(new_nid as nat),
            final(self).graph == old(self).graph,
            final(self).num_nodes == old(self).num_nodes,
            final(self).last_node == old(self).last_node,
    {
        let ghost adj = self.graph@;
        let ghost p = self.cur_path@;
        proof {
            lemma_path_through(adj, (new_nid - 1) as nat);
            lemma_insert_node(adj, p, new_nid);
            assert(!p.contains(new_nid)) by {
                if p.contains(new_nid) {
                    let m = choose|m: int| 0 <= m < p.len() && p[m] == new_nid;
                    assert(p[m] < new_nid);
                }
            }
        }
        let first_nid = self.cur_path.first();
        let last_nid = self.cur_path.last();
        if self.graph.get_node(new_nid).has_neighbor(first_nid) {
            self.cur_path.insert_at_start(new_nid);
            return;
        }
        if self.graph.get_node(last_nid).has_neighbor(new_nid) {
            self.cur_path.insert_at_end(new_nid);
            return;
        }
        let neighs = self.graph.get_node(new_nid).neighbor_ids();
        let path = self.cur_path.to_vec();
        assert(neighs@.contains(path@[(path@.len() - 2) + 1]));
        let i_id = Self::search_for_insert_point(neighs, path);
        self.cur_path.insert_after(i_id, new_nid);
    }
}

/// Inserting a node that is not yet on a path keeps it a path, one node
/// longer.
proof fn lemma_insert_node(adj: Seq<Seq<usize>>, p: Seq<usize>, k: usize)
    requires
        tournament_property(adj),
        k < adj.len(),
        p.len() >= 1,
        is_path_below(adj, p, k as nat),
    ensures
        insert_node(adj, p, k).len() == p.len() + 1,
        is_path_below(adj, insert_node(adj, p, k), (k + 1) as nat),
        !edge(adj, k, p[0]) && !edge(adj, p.last(), k) ==> p.len() >= 2 && edge(
            adj,
            k,
            p.last(),
        ) && 0 <= first_switch(adj[k as int], p, 0) < p.len() - 1,
{
    let q = insert_node(adj, p, k);
    assert(!p.contains(k)) by {
        if p.contains(k) {
            let m = choose|m: int| 0 <= m < p.len() && p[m] == k;
            assert(p[m] < k);
        }
    }
    if edge(adj, k, p[0]) {
        assert(q.drop_first() =~= p);
        assert forall|a: int, b: int| 0 <= a < q.len() && 0 <= b < q.len() && a != b implies q[a]
            != q[b] by {
            if a == 0 {
                assert(p.contains(q[b]));
            } else if b == 0 {
                assert(p.contains(q[a]));
            }
        }
        assert forall|m: int| 0 <= m < q.len() - 1 implies #[trigger] edge(adj, q[m], q[m + 1]) by {
            if m > 0 {
                assert(q[m] == p[m - 1] && q[m + 1] == p[m]);
            }
        }
    } else if edge(adj, p.last(), k) {
        assert forall|a: int, b: int| 0 <= a < q.len() && 0 <= b < q.len() && a != b implies q[a]
            != q[b] by {
            if a == p.len() {
                assert(p.contains(q[b]));
            } else if b == p.len() {
                assert(p.contains(q[a]));
            }
        }
        assert forall|m: int| 0 <= m < q.len() - 1 implies #[trigger] edge(adj, q[m], q[m + 1]) by {
            if m < p.len() - 1 {
                assert(q[m] == p[m] && q[m + 1] == p[m + 1]);
            }
        }
    } else {
        let out = adj[k as int];
        assert(p[0] < adj.len() && p.last() < adj.len());
        assert(p[0] != k);
        assert(edge(adj, p[0], k));
        assert(p.last() != k);
        assert(edge(adj, k, p.last()));
        assert(p.len() >= 2);
        lemma_first_switch(out, p, 0);
        let i = first_switch(out, p, 0);
        assert(edge(adj, p[i], k)) by {
            if i > 0 {
                assert(!out.contains(p[(i - 1) + 1]));
                assert(!edge(adj, k, p[i]));
                assert(p[i] < adj.len() && p[i] != k);
            }
        }
        assert(out.contains(p[i + 1]));
        assert(edge(adj, k, p[i + 1]));
        assert(q == p.insert(i + 1, k));
        assert forall|a: int, b: int| 0 <= a < q.len() && 0 <= b < q.len() && a != b implies q[a]
            != q[b] by {
            if a == i + 1 {
                assert(p.contains(q[b])) by {
                    assert(q[b] == p[if b < i + 1 { b } else { b - 1 }]);
                }
            } else if b == i + 1 {
                assert(p.contains(q[a])) by {
                    assert(q[a] == p[if a < i + 1 { a } else { a - 1 }]);
                }
            } else {
                assert(q[a] == p[if a < i + 1 { a } else { a - 1 }]);
                assert(q[b] == p[if b < i + 1 { b } else { b - 1 }]);
            }
        }
        assert forall|m: int| 0 <= m < q.len() implies (#[trigger] q[m]) < k + 1 by {
            if m != i + 1 {
                assert(q[m] == p[if m < i + 1 { m } else { m - 1 }]);
            }
        }
        assert forall|m: int| 0 <= m < q.len() - 1 implies #[trigger] edge(adj, q[m], q[m + 1]) by {
            if m < i {
                assert(q[m] == p[m] && q[m + 1] == p[m + 1]);
            } else if m == i {
                assert(q[m] == p[i] && q[m + 1] == k);
            } else if m == i + 1 {
                assert(q[m] == k && q[m + 1] == p[i + 1]);
            } else {
                assert(q[m] == p[m - 1] && q[m + 1] == p[m]);
                assert(edge(adj, p[m - 1], p[(m - 1) + 1]));
            }
        }
    }
}

/// Inserting a node keeps the path's nodes and adds the new one.
proof fn lemma_insert_node_members(adj: Seq<Seq<usize>>, p: Seq<usize>, k: usize)
    requires
        p.len() >= 1,
        !edge(adj, k, p[0]) && !edge(adj, p.last(), k) ==> 0 <= first_switch(adj[k as int], p, 0)
            < p.len() - 1,
    ensures
        insert_node(adj, p, k).contains(k),
        forall|id: usize| p.contains(id) ==> #[trigger] insert_node(adj, p, k).contains(id),
{
    let q = insert_node(adj, p, k);
    let at: int = if edge(adj, k, p[0]) {
        0
    } else if edge(adj, p.last(), k) {
        p.len() as int
    } else {
        first_switch(adj[k as int], p, 0) + 1
    };
    assert(q =~= p.insert(at, k));
    assert(q[at] == k);
    assert forall|id: usize| p.contains(id) implies #[trigger] q.contains(id) by {
        let m = choose|m: int| 0 <= m < p.len() && p[m] == id;
        if m < at {
            assert(q[m] == id);
        } else {
            assert(q[m + 1] == id);
        }
    }
}

/// The first switch at or after `from` is the index `i` when nothing in
/// between is followed by a node of `out` and `p[i + 1]` is.
proof fn lemma_first_switch_at(out: Seq<usize>, p: Seq<usize>, from: int, i: int)
    requires
        0 <= from <= i,
        i + 2 <= p.len(),
        out.contains(p[i + 1]),
        forall|m: int| from <= m < i ==> !out.contains(#[trigger] p[m + 1]),
    ensures
        first_switch(out, p, from) == i,
    decreases i - from,
{
    if from < i {
        assert(!out.contains(p[from + 1]));
        lemma_first_switch_at(out, p, from + 1, i);
    }
}

/// The first switch at or after `from` exists when the last node lies in
/// `out`, and no node between `from` and it is followed by one in `out`.
proof fn lemma_first_switch(out: Seq<usize>, p: Seq<usize>, from: int)
    requires
        0 <= from,
        from + 2 <= p.len(),
        out.contains(p.last()),
    ensures
        from <= first_switch(out, p, from) < p.len() - 1,
        out.contains(p[first_switch(out, p, from) + 1]),
        forall|m: int| from <= m < first_switch(out, p, from) ==> !out.contains(#[trigger] p[m + 1]),
    decreases p.len() - from,
{
    if !out.contains(p[from + 1]) {
        assert(from + 2 < p.len());
        lemma_first_switch(out, p, from + 1);
    }
}

/// The path over nodes `0..=k` holds each of them once, along edges.
proof fn lemma_path_through(adj: Seq<Seq<usize>>, k: nat)
    requires
        tournament_property(adj),
        k < adj.len(),
        k <= usize::MAX,
    ensures
        path_through(adj, k).len() == k + 1,
        is_path_below(adj, path_through(adj, k), k + 1),
        forall|id: usize| id <= k ==> #[trigger] path_through(adj, k).contains(id),
    decreases k,
{
    if k > 0 {
        let p = path_through(adj, (k - 1) as nat);
        let q = path_through(adj, k);
        lemma_path_through(adj, (k - 1) as nat);
        lemma_insert_node(adj, p, k as usize);
        lemma_insert_node_members(adj, p, k as usize);
        assert forall|id: usize| id <= k implies #[trigger] q.contains(id) by {
            if id < k {
                assert(p.contains(id));
            }
        }
    } else {
        let p = path_through(adj, 0);
        assert(p[0] == 0);
    }
}

/// For every tournament on `n >= 1` nodes, the path that the builder
/// returns holds each node of `0..n` exactly once and steps along edges
/// only, so `validate_path` accepts it.
pub proof fn lemma_hampath_is_hamiltonian(g: TournamentGraph)
    requires
        g.wf(),
        tournament_property(g@),
        g@.len() >= 1,
    ensures
        is_hamiltonian_path(g@, hampath(g@)),
        forall|id: usize| id < g@.len() ==> #[trigger] hampath(g@).contains(id),
{
    g.lemma_len_fits();
    lemma_path_through(g@, (g@.len() - 1) as nat);
}

/// Solving is deterministic: graphs with the same edges get the same path.
pub proof fn lemma_solve_deterministic(g1: TournamentGraph, g2: TournamentGraph)
    requires
        g1@ == g2@,
    ensures
        hampath(g1@) == hampath(g2@),
{
}

} // verus!
