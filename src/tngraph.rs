//! Tournament graphs over the nodes `0..n`, stored by index.
use vstd::prelude::*;

verus! {

/// A node's identity: its index in `0..n`.
pub type NodeID = usize;

/// Whether the adjacency lists `adj` hold an edge from `i` to `j`.
pub open spec fn edge(adj: Seq<Seq<usize>>, i: usize, j: usize) -> bool {
    adj[i as int].contains(j)
}

/// Every edge stays inside `0..adj.len()`, and no node points to itself.
pub open spec fn valid_adjacency(adj: Seq<Seq<usize>>) -> bool {
    forall|i: usize, k: int|
        i < adj.len() && 0 <= k < adj[i as int].len() ==> #[trigger] adj[i as int][k] < adj.len()
            && adj[i as int][k] != i
}

/// No duplicate edges, and each pair of distinct nodes has exactly one edge
/// between them.
pub open spec fn tournament_property(adj: Seq<Seq<usize>>) -> bool {
    &&& valid_adjacency(adj)
    &&& forall|i: int| 0 <= i < adj.len() ==> (#[trigger] adj[i]).no_duplicates()
    &&& forall|i: usize, j: usize|
        #![trigger edge(adj, i, j)]
        #![trigger edge(adj, j, i)]
        i < adj.len() && j < adj.len() && i != j ==> edge(adj, i, j) != edge(adj, j, i)
}

/// `p` visits every node exactly once, along edges of `adj`.
pub open spec fn is_hamiltonian_path(adj: Seq<Seq<usize>>, p: Seq<usize>) -> bool {
    &&& p.len() == adj.len()
    &&& p.no_duplicates()
    &&& forall|k: int| 0 <= k < p.len() ==> (#[trigger] p[k]) < adj.len()
    &&& forall|k: int| 0 <= k < p.len() - 1 ==> #[trigger] edge(adj, p[k], p[k + 1])
}

/// Every edge joins two distinct nodes of `0..n`.
pub open spec fn edges_in_range(n: nat, edges: Seq<(usize, usize)>) -> bool {
    forall|k: int|
        0 <= k < edges.len() ==> (#[trigger] edges[k]).0 < n && edges[k].1 < n && edges[k].0
            != edges[k].1
}

/// The edge list describes a tournament on `0..n`: edges in range, none
/// repeated, and exactly one direction for each pair of distinct nodes.
pub open spec fn edges_form_tournament(n: nat, edges: Seq<(usize, usize)>) -> bool {
    &&& edges_in_range(n, edges)
    &&& edges.no_duplicates()
    &&& forall|i: usize, j: usize|
        #![trigger edges.contains((i, j))]
        #![trigger edges.contains((j, i))]
        i < n && j < n && i != j ==> edges.contains((i, j)) != edges.contains((j, i))
}

/// The adjacency lists that inserting `edges` in order into `n` empty lists gives.
pub open spec fn adjacency(n: nat, edges: Seq<(usize, usize)>) -> Seq<Seq<usize>>
    decreases edges.len(),
{
    if edges.len() == 0 {
        Seq::new(n, |i: int| Seq::<usize>::empty())
    } else {
        let prev = adjacency(n, edges.drop_last());
        let e = edges.last();
        if (e.0 as int) < n {
            prev.update(e.0 as int, prev[e.0 as int].push(e.1))
        } else {
            prev
        }
    }
}

/// The edges given do not form a tournament.
#[derive(Debug, Clone, Copy, PartialEq, Eq)]
pub struct ValidationError;

/// Relies on rand::random::<bool>: one coin from the thread-local generator.
#[verifier::external_body]
fn random_bool() -> (r: bool) {
    rand::random::<bool>()
}

/// Where the pair `{i, j}` with `j < i` stands in a list that takes the
/// pairs by growing `i`, then by growing `j`.
pub open spec fn pair_index(i: int, j: int) -> int {
    i * (i - 1) / 2 + j
}

/// The edge that a coin picks for the pair `{i, j}`.
pub open spec fn coin_edge(coin: bool, i: usize, j: usize) -> (usize, usize) {
    if coin {
        (i, j)
    } else {
        (j, i)
    }
}

/// The pairs of `i + 1` start where those of `i` end.
proof fn lemma_pair_step(i: int)
    requires
        i >= 0,
    ensures
        pair_index(i + 1, 0) == pair_index(i, 0) + i,
{
    assert((i + 1) * i == i * (i - 1) + 2 * i) by (nonlinear_arith);
}

/// Later groups of pairs start further on.
proof fn lemma_pair_mono(a: int, b: int)
    requires
        0 <= a <= b,
    ensures
        0 <= pair_index(a, 0) <= pair_index(b, 0),
    decreases b - a,
{
    if a < b {
        lemma_pair_mono(a, b - 1);
        lemma_pair_step(b - 1);
    } else {
        assert(a * (a - 1) >= 0) by (nonlinear_arith)
            requires
                a >= 0,
        ;
    }
}

/// The pair `{a, b}` comes before step `(i, j)` of the order that visits, for
/// each `i`, the pairs `{i, j}` with `j < i`.
spec fn pair_done(a: usize, b: usize, i: nat, j: nat) -> bool {
    let hi = if a < b { b } else { a };
    let lo = if a < b { a } else { b };
    hi < i || (hi == i && lo < j)
}

/// The edge list holds one edge, in one direction, for each pair done before
/// step `(i, j)`, and nothing else.
spec fn edges_placed(edges: Seq<(usize, usize)>, i: nat, j: nat) -> bool {
    &&& edges.no_duplicates()
    &&& forall|k: int|
        0 <= k < edges.len() ==> (#[trigger] edges[k]).0 != edges[k].1 && pair_done(
            edges[k].0,
            edges[k].1,
            i,
            j,
        )
    &&& forall|a: usize, b: usize|
        #![trigger edges.contains((a, b))]
        #![trigger edges.contains((b, a))]
        a != b && pair_done(a, b, i, j) ==> edges.contains((a, b)) != edges.contains((b, a))
}

/// Whether `ids` holds `id`.
pub fn contains_id(ids: &Vec<NodeID>, id: NodeID) -> (r: bool)
    ensures
        r == ids@.contains(id),
{
    let mut k: usize = 0;
    while k < ids.len()
        invariant
            k <= ids@.len(),
            forall|a: int| 0 <= a < k ==> ids@[a] != id,
        decreases ids@.len() - k,
    {
        if ids[k] == id {
            assert(ids@[k as int] == id);
            return true;
        }
        k += 1;
    }
    false
}

/// A node of a tournament graph, with the targets of its outgoing edges.
pub struct Node {
    nodeid: NodeID,
    out_edges: Vec<NodeID>,
}

impl View for Node {
    type V = Seq<usize>;

    /// The targets of the outgoing edges, in insertion order.
    closed spec fn view(&self) -> Seq<usize> {
        self.out_edges@
    }
}

impl Node {
    /// The node's identity.
    pub closed spec fn id(&self) -> NodeID {
        self.nodeid
    }

    fn new(node_id: NodeID) -> (r: Self)
        ensures
            r.id() == node_id,
            r@ == Seq::<usize>::empty(),
    {
        Self { nodeid: node_id, out_edges: Vec::new() }
    }

    /// The node's identity.
    pub fn nodeid(&self) -> (r: NodeID)
        ensures
            r == self.id(),
    {
        self.nodeid
    }

    fn insert_edge_to(&mut self, other: NodeID)
        ensures
            final(self).id() == old(self).id(),
            final(self)@ == old(self)@.push(other),
    {
        self.out_edges.push(other);
    }

    /// The targets of this node's outgoing edges.
    pub fn neighbor_ids(&self) -> (r: Vec<NodeID>)
        ensures
            r@ == self@,
    {
        let mut r: Vec<NodeID> = Vec::new();
        let mut k: usize = 0;
        while k < self.out_edges.len()
            invariant
                k <= self@.len(),
                r@ == self@.subrange(0, k as int),
            decreases self@.len() - k,
        {
            r.push(self.out_edges[k]);
            k += 1;
            assert(r@ =~= self@.subrange(0, k as int));
        }
        assert(r@ =~= self@);
        r
    }

    /// Whether this node has an edge to `id`.
    pub fn has_neighbor(&self, id: NodeID) -> (r: bool)
        ensures
            r == self@.contains(id),
    {
        contains_id(&self.out_edges, id)
    }

    /// Whether no target appears twice, given that all targets are below `n`.
    fn has_unique_neighbors(&self, n: usize) -> (r: bool)
        requires
            forall|k: int| 0 <= k < self@.len() ==> #[trigger] self@[k] < n,
        ensures
            r == self@.no_duplicates(),
    {
        let mut seen: Vec<bool> = vec![false; n];
        let mut k: usize = 0;
        while k < self.out_edges.len()
            invariant
                k <= self@.len(),
                seen@.len() == n,
                forall|k: int| 0 <= k < self@.len() ==> #[trigger] self@[k] < n,
                forall|a: int| 0 <= a < k ==> seen@[#[trigger] self@[a] as int],
                forall|y: int|
                    0 <= y < n && #[trigger] seen@[y] ==> exists|a: int|
                        0 <= a < k && self@[a] == y,
                forall|a: int, b: int| 0 <= a < k && 0 <= b < k && a != b ==> self@[a] != self@[b],
            decreases self@.len() - k,
        {
            let x = self.out_edges[k];
            if seen[x] {
                let ghost a = choose|a: int| 0 <= a < k && self@[a] == x;
                assert(self@[a] == self@[k as int]);
                return false;
            }
            seen.set(x, true);
            k += 1;
        }
        true
    }
}

/// A tournament graph: node `i` sits at index `i` and lists its out-edges.
/// The graph offers no way to change it once it is built.
pub struct TournamentGraph {
    nodes: Vec<Node>,
}

impl View for TournamentGraph {
    type V = Seq<Seq<usize>>;

    /// The adjacency lists, indexed by node.
    closed spec fn view(&self) -> Seq<Seq<usize>> {
        self.nodes@.map_values(|nd: Node| nd@)
    }
}

impl TournamentGraph {
    /// Each node sits at the index of its identity.
    pub closed spec fn ids_match(&self) -> bool {
        forall|i: int| 0 <= i < self.nodes@.len() ==> (#[trigger] self.nodes@[i]).id() == i
    }

    /// The graph is well formed: ids match positions and every edge is valid.
    pub open spec fn wf(&self) -> bool {
        self.ids_match() && valid_adjacency(self@)
    }

    /// Builds the graph of `n` nodes and the given edges, without checking
    /// the tournament property.
    pub fn new_unchecked(n: usize, edges: Vec<(NodeID, NodeID)>) -> (r: Self)
        requires
            edges_in_range(n as nat, edges@),
        ensures
            r.wf(),
            r@ == adjacency(n as nat, edges@),
    {
        let mut nodes: Vec<Node> = Vec::new();
        let mut i: usize = 0;
        while i < n
            invariant
                i <= n,
                nodes@.len() == i,
                forall|a: int| 0 <= a < i ==> (#[trigger] nodes@[a]).id() == a && nodes@[a]@
                    == Seq::<usize>::empty(),
            decreases n - i,
        {
            nodes.push(Node::new(i));
            i += 1;
        }
        let ghost g0 = Self { nodes };
        assert(g0@ =~= adjacency(n as nat, edges@.subrange(0, 0)));
        let mut k: usize = 0;
        while k < edges.len()
            invariant
                k <= edges@.len(),
                nodes@.len() == n,
                edges_in_range(n as nat, edges@),
                forall|a: int| 0 <= a < n ==> (#[trigger] nodes@[a]).id() == a,
                nodes@.map_values(|nd: Node| nd@) == adjacency(n as nat, edges@.subrange(0, k as int)),
            decreases edges@.len() - k,
        {
            let (src, snk) = edges[k];
            assert(edges@[k as int].0 < n);
            nodes[src].insert_edge_to(snk);
            proof {
                let pre = edges@.subrange(0, k as int);
                let post = edges@.subrange(0, k + 1);
                assert(post.drop_last() =~= pre);
                assert(nodes@.map_values(|nd: Node| nd@) =~= adjacency(n as nat, post));
            }
            k += 1;
        }
        assert(edges@.subrange(0, edges@.len() as int) =~= edges@);
        let r = Self { nodes };
        proof {
            lemma_adjacency_valid(n as nat, edges@);
        }
        r
    }

    /// Builds the graph of `n` nodes and the given edges, and returns it if
    /// the edges form a tournament: each edge joins two distinct nodes of
    /// `0..n`, no edge repeats, and each pair of distinct nodes has an edge in
    /// exactly one direction.
    pub fn new(n: usize, edges: Vec<(NodeID, NodeID)>) -> (r: Result<Self, ValidationError>)
        ensures
            r.is_ok() == edges_form_tournament(n as nat, edges@),
            r matches Ok(g) ==> g.wf() && g@ == adjacency(n as nat, edges@),
    {
        let ghost e = edges@;
        let mut k: usize = 0;
        while k < edges.len()
            invariant
                e == edges@,
                k <= e.len(),
                forall|a: int| 0 <= a < k ==> (#[trigger] e[a]).0 < n && e[a].1 < n && e[a].0 != e[a].1,
            decreases e.len() - k,
        {
            let (src, snk) = edges[k];
            if src >= n || snk >= n || src == snk {
                assert(!edges_in_range(n as nat, e)) by {
                    assert(e[k as int] == (src, snk));
                }
                return Err(ValidationError);
            }
            k += 1;
        }
        let result = Self::new_unchecked(n, edges);
        proof {
            lemma_tournament_edges(n as nat, e);
        }
        if result.is_valid_tournament_graph() {
            Ok(result)
        } else {
            Err(ValidationError)
        }
    }

    /// A graph on `n` nodes whose direction for each pair comes from a coin.
    pub fn new_random(n: usize) -> (r: Self)
        ensures
            r.wf(),
            r@.len() == n,
            tournament_property(r@),
    {
        let edges = Self::random_edges(n);
        proof {
            lemma_tournament_edges(n as nat, edges@);
            lemma_adjacency_valid(n as nat, edges@);
        }
        Self::new_unchecked(n, edges)
    }

    /// One edge for each pair of distinct nodes of `0..n`, its direction
    /// picked by a coin.
    pub fn random_edges(n: usize) -> (r: Vec<(NodeID, NodeID)>)
        ensures
            r@.len() == n * (n - 1) / 2,
            edges_form_tournament(n as nat, r@),
    {
        let mut coins: Vec<bool> = Vec::new();
        let mut i: usize = 0;
        while i < n
            invariant
                i <= n,
                coins@.len() == pair_index(i as int, 0),
            decreases n - i,
        {
            let mut j: usize = 0;
            while j < i
                invariant
                    i < n,
                    j <= i,
                    coins@.len() == pair_index(i as int, j as int),
                decreases i - j,
            {
                coins.push(random_bool());
                j += 1;
            }
            proof {
                lemma_pair_step(i as int);
            }
            i += 1;
        }
        Self::edges_from_coins(n, &coins)
    }

    /// One edge for each pair of distinct nodes of `0..n`. The pair `{i, j}`
    /// with `j < i` stands at `pair_index(i, j)`, and points from `i` to `j`
    /// when the coin there is `true`, from `j` to `i` otherwise.
    pub fn edges_from_coins(n: usize, coins: &Vec<bool>) -> (r: Vec<(NodeID, NodeID)>)
        requires
            coins@.len() == n * (n - 1) / 2,
        ensures
            r@.len() == n * (n - 1) / 2,
            forall|i: usize, j: usize|
                j < i < n ==> #[trigger] r@[pair_index(i as int, j as int)] == coin_edge(
                    coins@[pair_index(i as int, j as int)],
                    i,
                    j,
                ),
            edges_form_tournament(n as nat, r@),
    {
        let mut out: Vec<(NodeID, NodeID)> = Vec::new();
        let mut i: usize = 0;
        while i < n
            invariant
                i <= n,
                coins@.len() == pair_index(n as int, 0),
                out@.len() == pair_index(i as int, 0),
                edges_placed(out@, i as nat, 0),
                forall|a: usize, b: usize|
                    b < a < i ==> #[trigger] out@[pair_index(a as int, b as int)] == coin_edge(
                        coins@[pair_index(a as int, b as int)],
                        a,
                        b,
                    ),
            decreases n - i,
        {
            let mut j: usize = 0;
            proof {
                lemma_pair_step(i as int);
                lemma_pair_mono(i as int + 1, n as int);
            }
            while j < i
                invariant
                    i < n,
                    j <= i,
                    coins@.len() == pair_index(n as int, 0),
                    pair_index(i as int + 1, 0) <= pair_index(n as int, 0),
                    pair_index(i as int + 1, 0) == pair_index(i as int, 0) + i,
                    out@.len() == pair_index(i as int, j as int),
                    edges_placed(out@, i as nat, j as nat),
                    forall|a: usize, b: usize|
                        b < a && (a < i || (a == i && b < j)) ==> #[trigger] out@[pair_index(
                            a as int,
                            b as int,
                        )] == coin_edge(coins@[pair_index(a as int, b as int)], a, b),
                decreases i - j,
            {
                let ghost pre = out@;
                let x = coins[out.len()];
                if x {
                    out.push((i, j));
                } else {
                    out.push((j, i));
                }
                proof {
                    lemma_place_pair(pre, i, j, out@.last());
                    assert forall|a: usize, b: usize|
                        b < a && (a < i || (a == i && b < j + 1)) implies #[trigger] out@[pair_index(
                            a as int,
                            b as int,
                        )] == coin_edge(coins@[pair_index(a as int, b as int)], a, b) by {
                        if a < i {
                            lemma_pair_step(a as int);
                            lemma_pair_mono(a as int + 1, i as int);
                        }
                    }
                }
                j += 1;
            }
            assert forall|a: usize, b: usize| a != b implies pair_done(a, b, (i + 1) as nat, 0)
                == pair_done(a, b, i as nat, i as nat) by {}
            i += 1;
        }
        assert forall|k: int| 0 <= k < out@.len() implies (#[trigger] out@[k]).0 < n && out@[k].1
            < n && out@[k].0 != out@[k].1 by {
            assert(pair_done(out@[k].0, out@[k].1, n as nat, 0));
        }
        out
    }

    /// The node with identity `id`.
    pub fn get_node(&self, id: NodeID) -> (r: &Node)
        requires
            self.wf(),
            id < self@.len(),
        ensures
            r.id() == id,
            r@ == self@[id as int],
    {
        &self.nodes[id]
    }

    /// Whether the graph has no duplicate edges and exactly one edge between
    /// each pair of distinct nodes.
    pub fn is_valid_tournament_graph(&self) -> (r: bool)
        requires
            self.wf(),
        ensures
            r == tournament_property(self@),
    {
        let n = self.nodes.len();
        let ghost adj = self@;
        let mut i: usize = 0;
        while i < n
            invariant
                self.wf(),
                n == adj.len(),
                adj == self@,
                i <= n,
                forall|a: int| 0 <= a < i ==> (#[trigger] adj[a]).no_duplicates(),
            decreases n - i,
        {
            let node = &self.nodes[i];
            assert(node@ == adj[i as int]);
            assert forall|k: int| 0 <= k < node@.len() implies #[trigger] node@[k] < n by {
                assert(adj[i as int][k] < adj.len());
            }
            if !node.has_unique_neighbors(n) {
                return false;
            }
            i += 1;
        }
        i = 0;
        while i < n
            invariant
                self.wf(),
                n == adj.len(),
                adj == self@,
                i <= n,
                forall|a: int| 0 <= a < n ==> (#[trigger] adj[a]).no_duplicates(),
                forall|a: usize, b: usize|
                    a < i && a < b < n ==> #[trigger] edge(adj, a, b) != edge(adj, b, a),
            decreases n - i,
        {
            let mut j: usize = i + 1;
            while j < n
                invariant
                    self.wf(),
                    n == adj.len(),
                    adj == self@,
                    i < n,
                    i + 1 <= j <= n,
                    forall|a: usize, b: usize|
                        a < i && a < b < n ==> #[trigger] edge(adj, a, b) != edge(adj, b, a),
                    forall|b: usize| i < b < j ==> #[trigger] edge(adj, i, b) != edge(adj, b, i),
                decreases n - j,
            {
                let i_to_j = self.nodes[i].has_neighbor(j);
                let j_to_i = self.nodes[j].has_neighbor(i);
                if i_to_j == j_to_i {
                    assert(edge(adj, i, j) == edge(adj, j, i));
                    return false;
                }
                j += 1;
            }
            i += 1;
        }
        assert forall|a: usize, b: usize|
            a < adj.len() && b < adj.len() && a != b implies edge(adj, a, b) != edge(adj, b, a) by {
            if a > b {
                assert(edge(adj, b, a) != edge(adj, a, b));
            }
        }
        true
    }

    /// Whether `path` visits every node exactly once, each step along an edge.
    pub fn validate_path(&self, path: &[NodeID]) -> (r: bool)
        requires
            self.wf(),
        ensures
            r == is_hamiltonian_path(self@, path@),
    {
        let n = self.nodes.len();
        let ghost adj = self@;
        if path.len() != n {
            return false;
        }
        let mut seen: Vec<bool> = vec![false; n];
        let mut k: usize = 0;
        while k < n
            invariant
                self.wf(),
                adj == self@,
                n == adj.len(),
                path@.len() == n,
                seen@.len() == n,
                k <= n,
                forall|a: int| 0 <= a < k ==> (#[trigger] path@[a]) < n && seen@[path@[a] as int],
                forall|y: int|
                    0 <= y < n && #[trigger] seen@[y] ==> exists|a: int| 0 <= a < k && path@[a] == y,
                forall|a: int, b: int| 0 <= a < k && 0 <= b < k && a != b ==> path@[a] != path@[b],
                forall|a: int| 0 <= a < k - 1 ==> #[trigger] edge(adj, path@[a], path@[a + 1]),
            decreases n - k,
        {
            let id = path[k];
            if id >= n {
                return false;
            }
            if seen[id] {
                let ghost a = choose|a: int| 0 <= a < k && path@[a] == id;
                assert(path@[a] == path@[k as int]);
                return false;
            }
            if k > 0 {
                let prev = path[k - 1];
                if !self.nodes[prev].has_neighbor(id) {
                    assert(!edge(adj, path@[k - 1], path@[(k - 1) + 1]));
                    return false;
                }
            }
            seen.set(id, true);
            k += 1;
        }
        true
    }

    /// The signed adjacency matrix: row `i`, column `j` holds `1` when node
    /// `i` has an edge to node `j`, and `-1` otherwise.
    pub fn sign_matrix(&self) -> (r: Vec<Vec<i8>>)
        requires
            self.wf(),
        ensures
            r@.len() == self@.len(),
            forall|i: int| 0 <= i < r@.len() ==> (#[trigger] r@[i])@.len() == self@.len(),
            forall|i: usize, j: usize|
                i < self@.len() && j < self@.len() ==> (#[trigger] r@[i as int]@[j as int]) == if edge(
                    self@,
                    i,
                    j,
                ) {
                    1i8
                } else {
                    -1i8
                },
    {
        let n = self.nodes.len();
        let mut rows: Vec<Vec<i8>> = Vec::new();
        let mut x: usize = 0;
        while x < n
            invariant
                self.wf(),
                n == self@.len(),
                x <= n,
                rows@.len() == x,
                forall|i: int| 0 <= i < x ==> (#[trigger] rows@[i])@.len() == n,
                forall|i: usize, j: usize|
                    i < x && j < n ==> (#[trigger] rows@[i as int]@[j as int]) == if edge(self@, i, j) {
                        1i8
                    } else {
                        -1i8
                    },
            decreases n - x,
        {
            let cur_node = &self.nodes[x];
            let mut row: Vec<i8> = Vec::new();
            let mut y: usize = 0;
            while y < n
                invariant
                    self.wf(),
                    n == self@.len(),
                    x < n,
                    y <= n,
                    cur_node@ == self@[x as int],
                    row@.len() == y,
                    forall|j: usize|
                        j < y ==> (#[trigger] row@[j as int]) == if edge(self@, x, j) {
                            1i8
                        } else {
                            -1i8
                        },
                decreases n - y,
            {
                if cur_node.has_neighbor(y) {
                    row.push(1);
                } else {
                    row.push(-1);
                }
                y += 1;
            }
            rows.push(row);
            x += 1;
        }
        rows
    }

    /// The number of nodes fits in a `usize`.
    pub proof fn lemma_len_fits(&self)
        ensures
            self@.len() <= usize::MAX,
    {
        assert(self.nodes@.len() == self.nodes.len());
    }

    /// The number of nodes.
    pub fn len(&self) -> (r: usize)
        ensures
            r == self@.len(),
    {
        self.nodes.len()
    }
}

/// The lists built from in-range edges are `n` long and valid.
proof fn lemma_adjacency_valid(n: nat, edges: Seq<(usize, usize)>)
    requires
        edges_in_range(n, edges),
    ensures
        adjacency(n, edges).len() == n,
        valid_adjacency(adjacency(n, edges)),
    decreases edges.len(),
{
    if edges.len() > 0 {
        let pre = edges.drop_last();
        assert(edges_in_range(n, pre)) by {
            assert forall|k: int| 0 <= k < pre.len() implies (#[trigger] pre[k]).0 < n && pre[k].1
                < n && pre[k].0 != pre[k].1 by {
                assert(pre[k] == edges[k]);
            }
        }
        lemma_adjacency_valid(n, pre);
        let e = edges[edges.len() - 1];
        let adj = adjacency(n, edges);
        let prev = adjacency(n, pre);
        assert forall|i: usize, k: int| i < adj.len() && 0 <= k < adj[i as int].len() implies #[trigger] adj[
            i as int][k] < adj.len() && adj[i as int][k] != i by {
            if i == e.0 && k == prev[i as int].len() {
            } else {
                assert(adj[i as int][k] == prev[i as int][k]);
            }
        }
    }
}

/// Appending an edge for the pair `{i, j}` moves the placement one step on.
proof fn lemma_place_pair(pre: Seq<(usize, usize)>, i: usize, j: usize, e: (usize, usize))
    requires
        j < i,
        edges_placed(pre, i as nat, j as nat),
        e == (i, j) || e == (j, i),
    ensures
        edges_placed(pre.push(e), i as nat, (j + 1) as nat),
{
    let post = pre.push(e);
    assert(!pre.contains(e)) by {
        if pre.contains(e) {
            let k = choose|k: int| 0 <= k < pre.len() && pre[k] == e;
            assert(pair_done(pre[k].0, pre[k].1, i as nat, j as nat));
        }
    }
    lemma_push_distinct(pre, e);
    assert forall|a: usize, b: usize| a != b && pair_done(a, b, i as nat, (j + 1) as nat) implies post.contains(
        (a, b),
    ) != post.contains((b, a)) by {
        lemma_push_contains(pre, e, (a, b));
        lemma_push_contains(pre, e, (b, a));
        if !pair_done(a, b, i as nat, j as nat) {
            if pre.contains((a, b)) {
                let k = choose|k: int| 0 <= k < pre.len() && pre[k] == (a, b);
                assert(pair_done(pre[k].0, pre[k].1, i as nat, j as nat));
            }
            if pre.contains((b, a)) {
                let k = choose|k: int| 0 <= k < pre.len() && pre[k] == (b, a);
                assert(pair_done(pre[k].0, pre[k].1, i as nat, j as nat));
            }
        }
    }
    assert forall|k: int| 0 <= k < post.len() implies (#[trigger] post[k]).0 != post[k].1 && pair_done(
        post[k].0,
        post[k].1,
        i as nat,
        (j + 1) as nat,
    ) by {
        if k < pre.len() {
            assert(post[k] == pre[k]);
        }
    }
}

/// A pushed sequence holds what it held before, and the new element.
proof fn lemma_push_contains<T>(s: Seq<T>, x: T, y: T)
    ensures
        s.push(x).contains(y) == (s.contains(y) || x == y),
{
    let t = s.push(x);
    if s.contains(y) {
        let k = choose|k: int| 0 <= k < s.len() && s[k] == y;
        assert(t[k] == y);
    }
    if x == y {
        assert(t[s.len() as int] == y);
    }
    if t.contains(y) {
        let k = choose|k: int| 0 <= k < t.len() && t[k] == y;
        if k < s.len() {
            assert(s[k] == y);
        }
    }
}

/// A pushed sequence is free of duplicates exactly when the shorter one is and
/// did not hold the new element.
proof fn lemma_push_distinct<T>(s: Seq<T>, x: T)
    ensures
        s.push(x).no_duplicates() == (s.no_duplicates() && !s.contains(x)),
{
    let t = s.push(x);
    if t.no_duplicates() {
        assert forall|a: int, b: int| 0 <= a < s.len() && 0 <= b < s.len() && a != b implies s[a]
            != s[b] by {
            assert(t[a] == s[a] && t[b] == s[b]);
        }
        if s.contains(x) {
            let k = choose|k: int| 0 <= k < s.len() && s[k] == x;
            assert(t[k] == t[s.len() as int]);
        }
    }
    if s.no_duplicates() && !s.contains(x) {
        assert forall|a: int, b: int| 0 <= a < t.len() && 0 <= b < t.len() && a != b implies t[a]
            != t[b] by {
            if a == s.len() {
                assert(s[b] == t[b]);
            } else if b == s.len() {
                assert(s[a] == t[a]);
            }
        }
    }
}

/// Dropping the last edge keeps the rest in range.
proof fn lemma_in_range_prefix(n: nat, edges: Seq<(usize, usize)>)
    requires
        edges_in_range(n, edges),
        edges.len() > 0,
    ensures
        edges_in_range(n, edges.drop_last()),
{
    let pre = edges.drop_last();
    assert forall|k: int| 0 <= k < pre.len() implies (#[trigger] pre[k]).0 < n && pre[k].1 < n
        && pre[k].0 != pre[k].1 by {
        assert(pre[k] == edges[k]);
    }
}

/// Node `i` has an edge to `j` exactly when the edge list holds `(i, j)`.
proof fn lemma_adjacency_contains(n: nat, edges: Seq<(usize, usize)>, i: usize, j: usize)
    requires
        edges_in_range(n, edges),
        i < n,
    ensures
        adjacency(n, edges)[i as int].contains(j) == edges.contains((i, j)),
    decreases edges.len(),
{
    lemma_adjacency_valid(n, edges);
    if edges.len() == 0 {
        assert(adjacency(n, edges)[i as int] =~= Seq::<usize>::empty());
    } else {
        let pre = edges.drop_last();
        let e = edges.last();
        lemma_in_range_prefix(n, pre.push(e));
        assert(pre.push(e) =~= edges);
        lemma_in_range_prefix(n, edges);
        lemma_adjacency_contains(n, pre, i, j);
        lemma_adjacency_valid(n, pre);
        lemma_push_contains(pre, e, (i, j));
        if e.0 == i {
            lemma_push_contains(adjacency(n, pre)[i as int], e.1, j);
        }
    }
}

/// The lists are free of duplicates exactly when the edge list is.
proof fn lemma_adjacency_distinct(n: nat, edges: Seq<(usize, usize)>)
    requires
        edges_in_range(n, edges),
    ensures
        edges.no_duplicates() == (forall|i: int|
            0 <= i < n ==> (#[trigger] adjacency(n, edges)[i]).no_duplicates()),
    decreases edges.len(),
{
    lemma_adjacency_valid(n, edges);
    let adj = adjacency(n, edges);
    if edges.len() > 0 {
        let pre = edges.drop_last();
        let e = edges.last();
        assert(pre.push(e) =~= edges);
        lemma_in_range_prefix(n, edges);
        lemma_adjacency_distinct(n, pre);
        lemma_adjacency_valid(n, pre);
        let prev = adjacency(n, pre);
        lemma_push_distinct(pre, e);
        lemma_adjacency_contains(n, pre, e.0, e.1);
        lemma_push_distinct(prev[e.0 as int], e.1);
        assert(e.0 < n);
        if edges.no_duplicates() {
            assert forall|i: int| 0 <= i < n implies (#[trigger] adj[i]).no_duplicates() by {
                if i != e.0 {
                    assert(adj[i] == prev[i]);
                }
            }
        }
        if forall|i: int| 0 <= i < n ==> (#[trigger] adj[i]).no_duplicates() {
            assert(adj[e.0 as int].no_duplicates());
            assert forall|i: int| 0 <= i < n implies (#[trigger] prev[i]).no_duplicates() by {
                if i != e.0 {
                    assert(adj[i] == prev[i]);
                    assert(adj[i].no_duplicates());
                }
            }
        }
    } else {
        assert forall|i: int| 0 <= i < n implies (#[trigger] adj[i]).no_duplicates() by {
            assert(adj[i] =~= Seq::<usize>::empty());
        }
    }
}

/// For in-range edges, the built lists form a tournament exactly when the
/// edge list does.
pub proof fn lemma_tournament_edges(n: nat, edges: Seq<(usize, usize)>)
    requires
        edges_in_range(n, edges),
    ensures
        adjacency(n, edges).len() == n,
        tournament_property(adjacency(n, edges)) == edges_form_tournament(n, edges),
{
    let adj = adjacency(n, edges);
    lemma_adjacency_valid(n, edges);
    lemma_adjacency_distinct(n, edges);
    assert forall|i: usize, j: usize| i < n && j < n implies edge(adj, i, j) == edges.contains(
        (i, j),
    ) by {
        lemma_adjacency_contains(n, edges, i, j);
    }
    if tournament_property(adj) {
        assert forall|i: int| 0 <= i < n implies (#[trigger] adj[i]).no_duplicates() by {}
        assert forall|i: usize, j: usize| i < n && j < n && i != j implies edges.contains((i, j))
            != edges.contains((j, i)) by {
            assert(edge(adj, i, j) != edge(adj, j, i));
        }
    }
    if edges_form_tournament(n, edges) {
        assert forall|i: usize, j: usize| i < adj.len() && j < adj.len() && i != j implies edge(
            adj,
            i,
            j,
        ) != edge(adj, j, i) by {
            assert(edges.contains((i, j)) != edges.contains((j, i)));
        }
    }
}

/// An edge list that misses both directions of some pair of distinct nodes,
/// holds both directions of some pair, or holds an edge from a node to itself
/// is no tournament, so `TournamentGraph::new` rejects it.
pub proof fn lemma_bad_edges_rejected(n: nat, edges: Seq<(usize, usize)>, i: usize, j: usize)
    requires
        (i < n && j < n && i != j && !edges.contains((i, j)) && !edges.contains((j, i))) || (
        edges.contains((i, j)) && edges.contains((j, i))) || edges.contains((i, i)),
    ensures
        !edges_form_tournament(n, edges),
{
    if edges_form_tournament(n, edges) {
        if edges.contains((i, i)) {
            let k = choose|k: int| 0 <= k < edges.len() && edges[k] == (i, i);
            assert(edges[k].0 != edges[k].1);
        } else if edges.contains((i, j)) && edges.contains((j, i)) {
            let k = choose|k: int| 0 <= k < edges.len() && edges[k] == (i, j);
            assert(edges[k].0 < n && edges[k].1 < n);
            if i == j {
                assert(edges[k].0 != edges[k].1);
            }
        }
    }
}

} // verus!
