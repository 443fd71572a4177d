//! Directed graphs as a node list and an edge list, what it means for one node
//! to reach another, and the graph algorithms that the solver relies on.

use petgraph::graph::Graph;
use petgraph::graph::NodeIndex;
use petgraph::Directed;
use vstd::prelude::*;

verus! {

/// A directed graph: node `i` carries `nodes[i]`, and an entry `(a, b)` of
/// `edges` is an edge from node `a` to node `b`.
#[derive(Debug, Clone)]
pub struct BetterGraph<NW> {
    pub nodes: Vec<NW>,
    pub edges: Vec<(usize, usize)>,
}

/// The graph of the directories of one level is a graph like any other.
pub type MyGraph<NW> = BetterGraph<NW>;

impl<NW> BetterGraph<NW> {
    /// Every edge joins two nodes of the graph.
    pub open spec fn wf(&self) -> bool {
        edges_in_range(self.edges@, self.nodes@.len())
    }

    /// The graph without nodes and edges.
    pub fn new() -> (g: Self)
        ensures
            g.nodes@.len() == 0,
            g.edges@.len() == 0,
            g.wf(),
    {
        BetterGraph { nodes: Vec::new(), edges: Vec::new() }
    }

    /// Whether every edge joins two nodes of the graph.
    pub fn check_wf(&self) -> (r: bool)
        ensures
            r == self.wf(),
    {
        let n = self.nodes.len();
        let mut k: usize = 0;
        while k < self.edges.len()
            invariant
                k <= self.edges@.len(),
                n == self.nodes@.len(),
                forall|i: int|
                    0 <= i < k ==> (#[trigger] self.edges@[i]).0 < n && self.edges@[i].1 < n,
            decreases self.edges@.len() - k,
        {
            if self.edges[k].0 >= n || self.edges[k].1 >= n {
                return false;
            }
            k = k + 1;
        }
        true
    }

    /// The graph with the given nodes and no edges.
    pub fn from_nodes(nodes: Vec<NW>) -> (g: Self)
        ensures
            g.nodes == nodes,
            g.edges@.len() == 0,
            g.wf(),
    {
        BetterGraph { nodes, edges: Vec::new() }
    }

    /// Adds a node and gives its number.
    pub fn add_node(&mut self, node: NW) -> (index: usize)
        requires
            old(self).wf(),
        ensures
            final(self).wf(),
            final(self).nodes@ == old(self).nodes@.push(node),
            final(self).edges == old(self).edges,
            index == old(self).nodes@.len(),
    {
        let index = self.nodes.len();
        self.nodes.push(node);
        index
    }

    /// Adds an edge from `source` to `target`, be it there already or not.
    pub fn add_edge(&mut self, source: usize, target: usize)
        requires
            old(self).wf(),
            source < old(self).nodes@.len(),
            target < old(self).nodes@.len(),
        ensures
            final(self).wf(),
            final(self).nodes == old(self).nodes,
            final(self).edges@ == old(self).edges@.push((source, target)),
    {
        self.edges.push((source, target));
    }

    /// Adds an edge from `source` to `target` unless the graph has one.
    pub fn update_edge(&mut self, source: usize, target: usize)
        requires
            old(self).wf(),
            source < old(self).nodes@.len(),
            target < old(self).nodes@.len(),
        ensures
            final(self).wf(),
            final(self).nodes == old(self).nodes,
            final(self).edges@ == (if old(self).edges@.contains((source, target)) {
                old(self).edges@
            } else {
                old(self).edges@.push((source, target))
            }),
    {
        let mut k: usize = 0;
        while k < self.edges.len()
            invariant
                k <= self.edges@.len(),
                *self == *old(self),
                self.wf(),
                source < self.nodes@.len(),
                target < self.nodes@.len(),
                forall|j: int| 0 <= j < k ==> #[trigger] self.edges@[j] != (source, target),
            decreases self.edges@.len() - k,
        {
            if self.edges[k].0 == source && self.edges[k].1 == target {
                assert(self.edges@[k as int] == (source, target));
                return ;
            }
            k = k + 1;
        }
        self.edges.push((source, target));
    }
}

/// Whether both ends of every edge are below `n`.
pub open spec fn edges_in_range(edges: Seq<(usize, usize)>, n: nat) -> bool {
    forall|i: int| 0 <= i < edges.len() ==> (#[trigger] edges[i]).0 < n && edges[i].1 < n
}

/// Whether `p` is a walk over the edges of the set `edges`: a non-empty list of
/// nodes, each joined to the next by an edge.
pub open spec fn is_walk(edges: Set<(usize, usize)>, p: Seq<usize>) -> bool {
    &&& p.len() >= 1
    &&& forall|i: int| 0 <= i < p.len() - 1 ==> #[trigger] is_step(edges, p, i)
}

/// Whether an edge joins the node at position `i` of `p` to the next one.
pub open spec fn is_step(edges: Set<(usize, usize)>, p: Seq<usize>, i: int) -> bool {
    edges.contains((p[i], p[i + 1]))
}

/// Whether a walk leads from `from` to `to`. Every node reaches itself.
pub open spec fn reachable(edges: Set<(usize, usize)>, from: usize, to: usize) -> bool {
    exists|p: Seq<usize>| is_walk(edges, p) && p[0] == from && p.last() == to
}

/// Whether the graph has no cycle: no edge leads to a node that reaches the
/// edge's start. A self loop is a cycle.
pub open spec fn acyclic(edges: Set<(usize, usize)>) -> bool {
    forall|a: usize, b: usize| #[trigger] edges.contains((a, b)) ==> !reachable(edges, b, a)
}

/// Walks can be joined: reaching is transitive.
pub proof fn lemma_reachable_is_transitive(
    edges: Set<(usize, usize)>,
    a: usize,
    b: usize,
    c: usize,
)
    requires
        reachable(edges, a, b),
        reachable(edges, b, c),
    ensures
        reachable(edges, a, c),
{
    let p = choose|p: Seq<usize>| is_walk(edges, p) && p[0] == a && p.last() == b;
    let q = choose|q: Seq<usize>| is_walk(edges, q) && q[0] == b && q.last() == c;
    let r = p + q.skip(1);
    assert forall|i: int| 0 <= i < r.len() - 1 implies #[trigger] is_step(edges, r, i) by {
        if i < p.len() - 1 {
            assert(is_step(edges, p, i));
        } else {
            let k = i - (p.len() - 1);
            assert(is_step(edges, q, k));
        }
    }
    assert(is_walk(edges, r) && r[0] == a && r.last() == c);
}

/// In a graph without a cycle, two nodes that reach each other are one node.
pub proof fn lemma_acyclic_has_no_round_trip(edges: Set<(usize, usize)>, a: usize, b: usize)
    requires
        acyclic(edges),
        reachable(edges, a, b),
        reachable(edges, b, a),
    ensures
        a == b,
{
    if a != b {
        let p = choose|p: Seq<usize>| is_walk(edges, p) && p[0] == a && p.last() == b;
        assert(is_step(edges, p, 0));
        let rest = p.skip(1);
        assert forall|i: int| 0 <= i < rest.len() - 1 implies #[trigger] is_step(
            edges,
            rest,
            i,
        ) by {
            assert(is_step(edges, p, i + 1));
        }
        assert(is_walk(edges, rest) && rest[0] == p[1] && rest.last() == b);
        lemma_reachable_is_transitive(edges, p[1], b, a);
    }
}

/// The lists that a vector of vectors holds.
pub open spec fn lists_of(v: Vec<Vec<usize>>) -> Seq<Seq<usize>> {
    Seq::new(v@.len(), |i: int| v@[i]@)
}

/// The strongly connected components of the graph with `n` nodes and the given
/// edges, in the order and with the node order in which Tarjan's algorithm, as
/// `petgraph::algo::tarjan_scc` runs it, gives them.
pub uninterp spec fn tarjan_components(n: nat, edges: Seq<(usize, usize)>) -> Seq<Seq<usize>>;

/// Whether some component lists the node `v`.
pub open spec fn is_listed(comps: Seq<Seq<usize>>, v: usize) -> bool {
    exists|c: int| 0 <= c < comps.len() && (#[trigger] comps[c]).contains(v)
}

/// Whether `comps` splits the nodes below `n` into strongly connected
/// components: every node is in exactly one component, once, no component is
/// empty, and two nodes are in the same component exactly if they reach each
/// other.
pub open spec fn is_scc_partition(
    comps: Seq<Seq<usize>>,
    n: nat,
    edges: Set<(usize, usize)>,
) -> bool {
    &&& forall|c: int, v: usize|
        0 <= c < comps.len() && (#[trigger] comps[c].contains(v)) ==> v < n
    &&& forall|v: usize| v < n ==> #[trigger] is_listed(comps, v)
    &&& forall|c: int|
        0 <= c < comps.len() ==> (#[trigger] comps[c]).no_duplicates() && comps[c].len() > 0
    &&& forall|c1: int, c2: int, a: usize, b: usize|
        0 <= c1 < comps.len() && 0 <= c2 < comps.len() && (#[trigger] comps[c1].contains(a))
            && (#[trigger] comps[c2].contains(b)) ==> (c1 == c2 <==> reachable(edges, a, b)
            && reachable(edges, b, a))
}

/// In a graph without a cycle every strongly connected component is one node.
pub proof fn lemma_acyclic_components_are_single(
    comps: Seq<Seq<usize>>,
    n: nat,
    edges: Set<(usize, usize)>,
    c: int,
)
    requires
        is_scc_partition(comps, n, edges),
        acyclic(edges),
        0 <= c < comps.len(),
    ensures
        comps[c].len() == 1,
{
    if comps[c].len() >= 2 {
        let a = comps[c][0];
        let b = comps[c][1];
        assert(comps[c].contains(a));
        assert(comps[c].contains(b));
        assert(reachable(edges, a, b) && reachable(edges, b, a));
        lemma_acyclic_has_no_round_trip(edges, a, b);
    }
}

/// Calls `petgraph::algo::has_path_connecting` on the graph with `n` nodes and
/// the given edges. The claim: it says whether a walk leads from `from` to `to`,
/// and finds one from every node to itself.
#[verifier::external_body]
pub(crate) fn has_path_connecting(
    n: usize,
    edges: &Vec<(usize, usize)>,
    from: usize,
    to: usize,
) -> (r: bool)
    requires
        edges_in_range(edges@, n as nat),
        from < n,
        to < n,
    ensures
        r == reachable(edges@.to_set(), from, to),
{
    let mut g = Graph::<(), (), Directed, usize>::default();
    for _ in 0..n {
        g.add_node(());
    }
    for e in edges.iter() {
        g.add_edge(NodeIndex::new(e.0), NodeIndex::new(e.1), ());
    }
    petgraph::algo::has_path_connecting(&g, NodeIndex::new(from), NodeIndex::new(to), None)
}

/// Calls `petgraph::algo::toposort` on the graph with `n` nodes and the given
/// edges and says whether it found an order. The claim: it finds one exactly if
/// the graph has no cycle, a self loop counting as one.
#[verifier::external_body]
pub(crate) fn toposort_exists(n: usize, edges: &Vec<(usize, usize)>) -> (r: bool)
    requires
        edges_in_range(edges@, n as nat),
    ensures
        r == acyclic(edges@.to_set()),
{
    let mut g = Graph::<(), (), Directed, usize>::default();
    for _ in 0..n {
        g.add_node(());
    }
    for e in edges.iter() {
        g.add_edge(NodeIndex::new(e.0), NodeIndex::new(e.1), ());
    }
    petgraph::algo::toposort(&g, None).is_ok()
}

/// Calls `petgraph::algo::tarjan_scc` on the graph with `n` nodes and the given
/// edges. The claim: the result is a function of the graph alone, and it splits
/// the nodes into the classes of nodes that reach each other.
#[verifier::external_body]
pub(crate) fn tarjan_scc(n: usize, edges: &Vec<(usize, usize)>) -> (r: Vec<Vec<usize>>)
    requires
        edges_in_range(edges@, n as nat),
    ensures
        lists_of(r) == tarjan_components(n as nat, edges@),
        is_scc_partition(lists_of(r), n as nat, edges@.to_set()),
{
    let mut g = Graph::<(), (), Directed, usize>::default();
    for _ in 0..n {
        g.add_node(());
    }
    for e in edges.iter() {
        g.add_edge(NodeIndex::new(e.0), NodeIndex::new(e.1), ());
    }
    let sccs = petgraph::algo::tarjan_scc(&g);
    sccs.into_iter().map(|c| c.into_iter().map(|x| x.index()).collect()).collect()
}

} // verus!
