use vstd::prelude::*;
use petgraph::graph::{EdgeIndex, NodeIndex};
use petgraph::stable_graph::StableGraph;
use petgraph::Undirected;
use crate::grouping::{lemma_groups_start, lemma_kept, lemma_merge_groups, merged_sets};
use crate::dto::{case_ok, lemma_meet_ok, lemma_meets_symmetric, tuple_meet, tuple_meets, NTupleSingleInterval};

verus! {

#[verifier::external_type_specification]
#[verifier::external_body]
#[verifier::reject_recursive_types(N)]
#[verifier::reject_recursive_types(E)]
#[verifier::reject_recursive_types(Ty)]
#[verifier::reject_recursive_types(Ix)]
pub struct ExStableGraph<N, E, Ty, Ix>(StableGraph<N, E, Ty, Ix>);

#[verifier::external_type_specification]
#[verifier::external_body]
pub struct ExUndirected(Undirected);

/// The undirected graph the reduction works on; a node's weight is the
/// position of its test case in the arena beside it.
pub type CaseGraph = StableGraph<usize, (), Undirected, u32>;

/// The live nodes of the graph and their weights, by node index.
pub uninterp spec fn graph_nodes(g: StableGraph<usize, (), Undirected, u32>) -> Map<int, usize>;

/// The live edges of the graph, by edge index, as (source, target).
pub uninterp spec fn graph_edges(g: StableGraph<usize, (), Undirected, u32>) -> Map<int, (int, int)>;

/// One past the highest node index the graph has handed out.
pub uninterp spec fn node_bound(g: StableGraph<usize, (), Undirected, u32>) -> int;

/// One past the highest edge index the graph has handed out.
pub uninterp spec fn edge_bound(g: StableGraph<usize, (), Undirected, u32>) -> int;

/// The number of connected components of the graph with these nodes and
/// edges.
pub uninterp spec fn component_count(nodes: Set<int>, edges: Set<(int, int)>) -> int;

/// The nodes reachable from `start`, itself included.
pub uninterp spec fn reachable_set(nodes: Set<int>, edges: Set<(int, int)>, start: int) -> Set<int>;

/// Indices stay below their bounds, the maps are finite, and every edge joins
/// live nodes.
pub open spec fn graph_sane(g: CaseGraph) -> bool {
    &&& graph_nodes(g).dom().finite()
    &&& graph_edges(g).dom().finite()
    &&& forall|i: int| #[trigger] graph_nodes(g).contains_key(i) ==> 0 <= i < node_bound(g)
    &&& forall|e: int| #[trigger] graph_edges(g).contains_key(e) ==> 0 <= e < edge_bound(g)
        && graph_nodes(g).contains_key(graph_edges(g)[e].0) && graph_nodes(g).contains_key(
        graph_edges(g)[e].1)
    &&& 0 <= node_bound(g) <= u32::MAX
    &&& 0 <= edge_bound(g) <= u32::MAX
}

/// The source and target of edge `e`, if it is live.
pub open spec fn endpoints_of(g: CaseGraph, e: int) -> Option<(usize, usize)> {
    if graph_edges(g).contains_key(e) {
        Some((graph_edges(g)[e].0 as usize, graph_edges(g)[e].1 as usize))
    } else {
        None
    }
}

/// Some edge joins `a` and `b`, either way round.
pub open spec fn joined(g: CaseGraph, a: int, b: int) -> bool {
    exists|e: int|
        #[trigger] graph_edges(g).contains_key(e) && (graph_edges(g)[e] == (a, b) || graph_edges(g)[e]
            == (b, a))
}

/// Relies on `StableGraph::with_capacity`: a graph with no nodes and no edges.
#[verifier::external_body]
fn new_graph() -> (r: CaseGraph)
    ensures
        graph_nodes(r).dom().len() == 0,
        graph_edges(r).dom().len() == 0,
        node_bound(r) == 0,
        edge_bound(r) == 0,
        graph_sane(r),
{
    StableGraph::with_capacity(0, 0)
}

/// Relies on `StableGraph::add_node`: the weight goes to a vacant index, a
/// freed one or the next new one; it panics only when the next new index
/// would be the index type's maximum.
#[verifier::external_body]
fn add_node(g: &mut CaseGraph, weight: usize) -> (r: usize)
    requires
        graph_sane(*old(g)),
        node_bound(*old(g)) < u32::MAX,
    ensures
        !graph_nodes(*old(g)).contains_key(r as int),
        graph_nodes(*final(g)) == graph_nodes(*old(g)).insert(r as int, weight),
        graph_edges(*final(g)) == graph_edges(*old(g)),
        node_bound(*old(g)) <= node_bound(*final(g)) <= node_bound(*old(g)) + 1,
        edge_bound(*final(g)) == edge_bound(*old(g)),
        graph_sane(*final(g)),
{
    g.add_node(weight).index()
}

/// Relies on `StableGraph::add_edge`: a new edge from `a` to `b` at a vacant
/// index; it panics when a node is missing or the next new index would be
/// the index type's maximum.
#[verifier::external_body]
fn add_edge(g: &mut CaseGraph, a: usize, b: usize) -> (r: usize)
    requires
        a <= u32::MAX && b <= u32::MAX,
        graph_sane(*old(g)),
        graph_nodes(*old(g)).contains_key(a as int),
        graph_nodes(*old(g)).contains_key(b as int),
        edge_bound(*old(g)) < u32::MAX,
    ensures
        !graph_edges(*old(g)).contains_key(r as int),
        graph_edges(*final(g)) == graph_edges(*old(g)).insert(r as int, (a as int, b as int)),
        graph_nodes(*final(g)) == graph_nodes(*old(g)),
        edge_bound(*old(g)) <= edge_bound(*final(g)) <= edge_bound(*old(g)) + 1,
        node_bound(*final(g)) == node_bound(*old(g)),
        graph_sane(*final(g)),
{
    g.add_edge(NodeIndex::new(a), NodeIndex::new(b), ()).index()
}

/// Relies on `StableGraph::remove_node`: the node and every edge touching it
/// go; no other index changes.
#[verifier::external_body]
fn remove_node(g: &mut CaseGraph, a: usize) -> (r: Option<usize>)
    requires
        a <= u32::MAX,
        graph_sane(*old(g)),
    ensures
        r == (if graph_nodes(*old(g)).contains_key(a as int) {
            Some(graph_nodes(*old(g))[a as int])
        } else {
            None::<usize>
        }),
        graph_nodes(*final(g)) == graph_nodes(*old(g)).remove(a as int),
        graph_edges(*final(g)) == graph_edges(*old(g)).restrict(
            graph_edges(*old(g)).dom().filter(
                |e: int| graph_edges(*old(g))[e].0 != a as int && graph_edges(*old(g))[e].1 != a as int,
            ),
        ),
        node_bound(*final(g)) == node_bound(*old(g)),
        edge_bound(*final(g)) == edge_bound(*old(g)),
        graph_sane(*final(g)),
{
    g.remove_node(NodeIndex::new(a))
}

/// Relies on `StableGraph::node_count`: the number of live nodes.
#[verifier::external_body]
fn node_count(g: &CaseGraph) -> (r: usize)
    ensures
        r == graph_nodes(*g).dom().len(),
{
    g.node_count()
}

/// Relies on `StableGraph::edge_count`: the number of live edges.
#[verifier::external_body]
fn edge_count(g: &CaseGraph) -> (r: usize)
    requires
        graph_sane(*g),
    ensures
        r == graph_edges(*g).dom().len(),
{
    g.edge_count()
}

/// Relies on `StableGraph::node_weight`: the weight of a live node.
#[verifier::external_body]
fn node_weight(g: &CaseGraph, a: usize) -> (r: Option<usize>)
    requires
        a <= u32::MAX,
    ensures
        r == (if graph_nodes(*g).contains_key(a as int) {
            Some(graph_nodes(*g)[a as int])
        } else {
            None::<usize>
        }),
{
    g.node_weight(NodeIndex::new(a)).copied()
}

/// Relies on `StableGraph::neighbors`: on an undirected graph, the other end
/// of every edge touching `a`.
#[verifier::external_body]
fn neighbors(g: &CaseGraph, a: usize) -> (r: Vec<usize>)
    requires
        a <= u32::MAX,
    ensures
        forall|i: int| 0 <= i < r@.len() ==> joined(*g, a as int, #[trigger] r@[i] as int),
        forall|e: int|
            #[trigger] graph_edges(*g).contains_key(e) && graph_edges(*g)[e].0 == a as int ==> r@.contains(
                graph_edges(*g)[e].1 as usize,
            ),
        forall|e: int|
            #[trigger] graph_edges(*g).contains_key(e) && graph_edges(*g)[e].1 == a as int ==> r@.contains(
                graph_edges(*g)[e].0 as usize,
            ),
{
    g.neighbors(NodeIndex::new(a)).map(|n| n.index()).collect()
}

/// Relies on `StableGraph::edge_indices`: the live edge indices, ascending.
#[verifier::external_body]
fn edge_indices(g: &CaseGraph) -> (r: Vec<usize>)
    ensures
        forall|i: int, j: int| 0 <= i < j < r@.len() ==> r@[i] < r@[j],
        forall|i: int| 0 <= i < r@.len() ==> graph_edges(*g).contains_key(#[trigger] r@[i] as int),
        forall|e: int| #[trigger] graph_edges(*g).contains_key(e) ==> r@.contains(e as usize),
{
    g.edge_indices().map(|e| e.index()).collect()
}

/// Relies on `StableGraph::node_indices`: the live node indices, ascending.
#[verifier::external_body]
fn node_indices(g: &CaseGraph) -> (r: Vec<usize>)
    ensures
        forall|i: int, j: int| 0 <= i < j < r@.len() ==> r@[i] < r@[j],
        forall|i: int| 0 <= i < r@.len() ==> graph_nodes(*g).contains_key(#[trigger] r@[i] as int),
        forall|n: int| #[trigger] graph_nodes(*g).contains_key(n) ==> r@.contains(n as usize),
{
    g.node_indices().map(|n| n.index()).collect()
}

/// Relies on `StableGraph::edge_endpoints`: source and target of a live edge.
#[verifier::external_body]
fn edge_endpoints(g: &CaseGraph, e: usize) -> (r: Option<(usize, usize)>)
    requires
        e <= u32::MAX,
    ensures
        r == endpoints_of(*g, e as int),
{
    g.edge_endpoints(EdgeIndex::new(e)).map(|(a, b)| (a.index(), b.index()))
}

/// Relies on `StableGraph`'s `Clone`: the same nodes and edges at the same
/// indices.
#[verifier::external_body]
fn clone_graph(g: &CaseGraph) -> (r: CaseGraph)
    ensures
        graph_nodes(r) == graph_nodes(*g),
        graph_edges(r) == graph_edges(*g),
        node_bound(r) == node_bound(*g),
        edge_bound(r) == edge_bound(*g),
{
    g.clone()
}

/// Relies on `petgraph::algo::kosaraju_scc`: on an undirected graph its
/// strongly connected components are the connected components.
#[verifier::external_body]
fn count_components(g: &CaseGraph) -> (r: usize)
    ensures
        r as int == component_count(graph_nodes(*g).dom(), graph_edges(*g).values()),
{
    petgraph::algo::kosaraju_scc(g).len()
}

/// Relies on `petgraph::visit::Bfs`: it hands out each node reachable from
/// the start exactly once.
#[verifier::external_body]
fn reachable_nodes(g: &CaseGraph, start: usize) -> (r: Vec<usize>)
    requires
        start <= u32::MAX,
        graph_sane(*g),
        graph_nodes(*g).contains_key(start as int),
    ensures
        r@.no_duplicates(),
        forall|i: int| 0 <= i < r@.len() ==> reachable_set(graph_nodes(*g).dom(), graph_edges(*g).values(), start as int).contains(#[trigger] r@[i] as int),
        forall|x: int| #[trigger] reachable_set(graph_nodes(*g).dom(), graph_edges(*g).values(), start as int).contains(x) ==> r@.contains(x as usize),
{
    let mut bfs = petgraph::visit::Bfs::new(g, NodeIndex::new(start));
    let mut visited: Vec<usize> = Vec::new();
    while let Some(n) = bfs.next(g) {
        visited.push(n.index());
    }
    visited
}


/// The most test cases a graph is built from. Node and edge indices are
/// `u32`: building makes up to n nodes and n * n edges, and each of the up to
/// n merges adds one node and fewer than n edges, so n * n + n * NODE_ROOM
/// must stay under EDGE_ROOM, itself under `u32::MAX`.
pub const MAX_CASES: usize = 0x4000;

/// Room for node indices: the cases plus one merged node per merge.
pub const NODE_ROOM: usize = 0x8000;

/// Room for edge indices: each merge adds fewer edges than there are nodes.
pub const EDGE_ROOM: usize = 0x8000_0000;

/// The test cases as an undirected graph: an edge joins two cases that can
/// hold together. Nodes are never changed, only removed; a merge removes two
/// nodes and adds their intersection as a new one.
pub struct NTupleGraph {
    graph: CaseGraph,
    cases: Vec<NTupleSingleInterval>,
}

impl NTupleGraph {
    /// Node weights point into the arena, every case is well formed, every
    /// edge joins two distinct nodes whose cases can hold together, and the
    /// index space has room for the merges still to come.
    pub closed spec fn wf(&self) -> bool {
        let nodes = graph_nodes(self.graph);
        let edges = graph_edges(self.graph);
        &&& graph_sane(self.graph)
        &&& forall|i: int| #[trigger] nodes.contains_key(i) ==> nodes[i] < self.cases@.len()
        &&& forall|c: int| 0 <= c < self.cases@.len() ==> case_ok(#[trigger] self.cases@[c]@)
        &&& forall|e: int| #[trigger] edges.contains_key(e) ==> edges[e].0 != edges[e].1 && tuple_meets(
            self.cases@[nodes[edges[e].0] as int]@,
            self.cases@[nodes[edges[e].1] as int]@,
        )
        &&& node_bound(self.graph) + nodes.dom().len() <= NODE_ROOM
        &&& edge_bound(self.graph) + nodes.dom().len() * NODE_ROOM <= EDGE_ROOM
    }

    /// The live node indices.
    pub closed spec fn node_set(&self) -> Set<int> {
        graph_nodes(self.graph).dom()
    }

    pub closed spec fn num_nodes(&self) -> nat {
        graph_nodes(self.graph).dom().len()
    }

    pub closed spec fn num_edges(&self) -> nat {
        graph_edges(self.graph).dom().len()
    }

    /// The test case at a live node.
    pub closed spec fn case_at(&self, i: int) -> Seq<(Seq<char>, crate::dto::Output<crate::interval::Interval>)> {
        self.cases@[graph_nodes(self.graph)[i] as int]@
    }

    /// `t` is the test case of some live node.
    pub closed spec fn is_node_case(&self, t: Seq<(Seq<char>, crate::dto::Output<crate::interval::Interval>)>) -> bool {
        exists|i: int| #[trigger] self.node_set().contains(i) && self.case_at(i) == t
    }

    /// The position, in the list the graph was built from, of the case at
    /// node `i`; merged nodes get positions past the end of that list.
    pub closed spec fn origin(&self, i: int) -> int {
        graph_nodes(self.graph)[i] as int
    }

    /// Some live node was built from position `k`.
    pub closed spec fn has_origin(&self, k: int) -> bool {
        exists|i: int| #[trigger] self.node_set().contains(i) && self.origin(i) == k
    }

    /// No two edges join the same pair of nodes.
    pub closed spec fn simple(&self) -> bool {
        simple_edges(self.graph)
    }

    /// Some edge runs from `a` to `b`.
    pub closed spec fn has_edge(&self, a: int, b: int) -> bool {
        exists|e: int| #[trigger] graph_edges(self.graph).contains_key(e) && graph_edges(self.graph)[e] == (a, b)
    }

    /// An edge joins the two nodes.
    pub closed spec fn adjacent(&self, x: int, y: int) -> bool {
        joined(self.graph, x, y)
    }

    /// The number of live nodes.
    pub fn node_count(&self) -> (r: usize)
        requires
            self.wf(),
        ensures
            r == self.num_nodes(),
    {
        node_count(&self.graph)
    }

    /// The number of live edges.
    pub fn edge_count(&self) -> (r: usize)
        requires
            self.wf(),
        ensures
            r == self.num_edges(),
    {
        edge_count(&self.graph)
    }
}


/// The values of `v` other than `a` and `b`, each once.
fn distinct_others(v: &Vec<usize>, a: usize, b: usize) -> (r: Vec<usize>)
    ensures
        r@.no_duplicates(),
        forall|i: int| 0 <= i < r@.len() ==> v@.contains(#[trigger] r@[i]) && r@[i] != a && r@[i] != b,
        forall|i: int| 0 <= i < v@.len() && v@[i] != a && v@[i] != b ==> r@.contains(#[trigger] v@[i]),
{
    let mut r: Vec<usize> = Vec::new();
    let n = v.len();
    for k in 0..n
        invariant
            n == v@.len(),
            r@.no_duplicates(),
            forall|i: int| 0 <= i < r@.len() ==> v@.contains(#[trigger] r@[i]) && r@[i] != a && r@[i] != b,
            forall|i: int| 0 <= i < k && v@[i] != a && v@[i] != b ==> r@.contains(#[trigger] v@[i]),
    {
        let x = v[k];
        if x != a && x != b {
            let mut seen = false;
            let m = r.len();
            for j in 0..m
                invariant
                    m == r@.len(),
                    seen ==> r@.contains(x),
                    !seen ==> forall|q: int| 0 <= q < j ==> r@[q] != x,
            {
                if r[j] == x {
                    seen = true;
                }
            }
            if !seen {
                let ghost old_r = r@;
                r.push(x);
                proof {
                    assert(r@[m as int] == x);
                    assert forall|i: int| 0 <= i < k + 1 && v@[i] != a && v@[i] != b implies r@.contains(#[trigger] v@[i]) by {
                        if i < k {
                            let w = choose|w: int| 0 <= w < old_r.len() && old_r[w] == v@[i];
                            assert(r@[w] == old_r[w]);
                        }
                    }
                    assert forall|i: int| 0 <= i < r@.len() implies v@.contains(#[trigger] r@[i]) && r@[i] != a && r@[i] != b by {
                        if i < m {
                            assert(r@[i] == old_r[i]);
                        } else {
                            assert(v@[k as int] == x);
                        }
                    }
                }
            }
        }
    }
    r
}

impl NTupleGraph {
    /// Every live node's test case is well formed.
    pub proof fn lemma_cases_ok(&self)
        requires
            self.wf(),
        ensures
            forall|i: int| #[trigger] self.node_set().contains(i) ==> case_ok(self.case_at(i)),
    {
        assert forall|i: int| #[trigger] self.node_set().contains(i) implies case_ok(self.case_at(i)) by {
            assert(graph_nodes(self.graph).contains_key(i));
        }
    }

    /// A copy with the same nodes, edges and indices.
    pub fn duplicate(&self) -> (r: NTupleGraph)
        requires
            self.wf(),
        ensures
            r.wf(),
            r.node_set() == self.node_set(),
            r.num_nodes() == self.num_nodes(),
            r.num_edges() == self.num_edges(),
            forall|i: int| #[trigger] self.node_set().contains(i) ==> r.case_at(i) == self.case_at(i),
            forall|x: int, y: int| r.has_edge(x, y) == self.has_edge(x, y),
            forall|x: int, y: int| r.adjacent(x, y) == self.adjacent(x, y),
    {
        let graph = clone_graph(&self.graph);
        let mut cases: Vec<NTupleSingleInterval> = Vec::new();
        let n = self.cases.len();
        for k in 0..n
            invariant
                n == self.cases@.len(),
                cases@.len() == k,
                forall|j: int| 0 <= j < k ==> (#[trigger] cases@[j])@ == self.cases@[j]@,
        {
            cases.push(self.cases[k].duplicate());
        }
        let r = NTupleGraph { graph, cases };
        assert forall|x: int, y: int| r.has_edge(x, y) == self.has_edge(x, y) by {
            if r.has_edge(x, y) {
                let e = choose|e: int| #[trigger] graph_edges(r.graph).contains_key(e) && graph_edges(r.graph)[e] == (x, y);
                assert(graph_edges(self.graph).contains_key(e));
            }
            if self.has_edge(x, y) {
                let e = choose|e: int| #[trigger] graph_edges(self.graph).contains_key(e) && graph_edges(self.graph)[e] == (x, y);
                assert(graph_edges(r.graph).contains_key(e));
            }
        }
        assert forall|x: int, y: int| r.adjacent(x, y) == self.adjacent(x, y) by {
            if r.adjacent(x, y) {
                let e = choose|e: int| #[trigger] graph_edges(r.graph).contains_key(e) && (graph_edges(r.graph)[e] == (x, y) || graph_edges(r.graph)[e] == (y, x));
                assert(graph_edges(self.graph).contains_key(e));
            }
            if self.adjacent(x, y) {
                let e = choose|e: int| #[trigger] graph_edges(self.graph).contains_key(e) && (graph_edges(self.graph)[e] == (x, y) || graph_edges(self.graph)[e] == (y, x));
                assert(graph_edges(r.graph).contains_key(e));
            }
        }
        assert forall|e: int| #[trigger] graph_edges(r.graph).contains_key(e) implies graph_edges(r.graph)[e].0 != graph_edges(r.graph)[e].1 && tuple_meets(
            r.cases@[graph_nodes(r.graph)[graph_edges(r.graph)[e].0] as int]@,
            r.cases@[graph_nodes(r.graph)[graph_edges(r.graph)[e].1] as int]@,
        ) by {
            assert(graph_edges(self.graph).contains_key(e));
            let (x, y) = graph_edges(self.graph)[e];
            assert(graph_nodes(self.graph).contains_key(x));
            assert(graph_nodes(self.graph).contains_key(y));
        }
        assert forall|c: int| 0 <= c < r.cases@.len() implies case_ok(#[trigger] r.cases@[c]@) by {
            assert(case_ok(self.cases@[c]@));
        }
        assert forall|i: int| #[trigger] self.node_set().contains(i) implies r.case_at(i) == self.case_at(i) by {
            assert(graph_nodes(self.graph).contains_key(i));
        }
        assert(graph_sane(r.graph));
        r
    }

    /// Some live edge, when there is one.
    fn some_edge(&self) -> (r: Vec<usize>)
        requires
            self.wf(),
        ensures
            forall|i: int, j: int| 0 <= i < j < r@.len() ==> r@[i] < r@[j],
            forall|i: int| 0 <= i < r@.len() ==> graph_edges(self.graph).contains_key(#[trigger] r@[i] as int),
            forall|e: int| #[trigger] graph_edges(self.graph).contains_key(e) ==> r@.contains(e as usize),
            self.num_edges() > 0 ==> r@.len() > 0,
    {
        let r = edge_indices(&self.graph);
        proof {
            if self.num_edges() > 0 {
                let d = graph_edges(self.graph).dom();
                assert(d.len() > 0);
                let e = d.choose();
                assert(d.contains(e));
                assert(r@.contains(e as usize));
            }
        }
        r
    }

    /// The endpoints of a live edge.
    fn endpoints(&self, e: usize) -> (r: (usize, usize))
        requires
            self.wf(),
            graph_edges(self.graph).contains_key(e as int),
        ensures
            self.has_edge(r.0 as int, r.1 as int),
            graph_edges(self.graph)[e as int] == (r.0 as int, r.1 as int),
    {
        match edge_endpoints(&self.graph, e) {
            Some(p) => {
                proof {
                    let (x, y) = graph_edges(self.graph)[e as int];
                    assert(graph_nodes(self.graph).contains_key(x));
                    assert(graph_nodes(self.graph).contains_key(y));
                    assert(0 <= x < node_bound(self.graph) && node_bound(self.graph) <= u32::MAX);
                    assert(0 <= y < node_bound(self.graph));
                    assert(graph_edges(self.graph)[e as int] == (p.0 as int, p.1 as int));
                }
                p
            },
            None => {
                proof {
                    assert(false);
                }
                (0, 0)
            },
        }
    }
}

/// Adds `new_ntuple` as a node joined to every former neighbour of `a` or
/// `b` whose case can still hold together with it, then removes `a` and
/// `b`. Returns the new node.
#[verifier::loop_isolation(false)]
#[verifier::rlimit(60)]
pub fn replace_nodes(graph: &mut NTupleGraph, a: usize, b: usize, new_ntuple: &NTupleSingleInterval) -> (r: usize)
    requires
        old(graph).wf(),
        a != b,
        old(graph).node_set().contains(a as int),
        old(graph).node_set().contains(b as int),
        case_ok(new_ntuple@),
    ensures
        final(graph).wf(),
        final(graph).num_nodes() == old(graph).num_nodes() - 1,
        final(graph).node_set() == old(graph).node_set().remove(a as int).remove(b as int).insert(r as int),
        !old(graph).node_set().contains(r as int),
        final(graph).case_at(r as int) == new_ntuple@,
        forall|i: int| #[trigger] old(graph).node_set().contains(i) && i != a && i != b ==> final(graph).case_at(i) == old(graph).case_at(i),
        forall|x: int|
            #[trigger] final(graph).node_set().contains(x) && x != r ==> (final(graph).adjacent(r as int, x) <==> (
            (old(graph).adjacent(a as int, x) || old(graph).adjacent(b as int, x)) && tuple_meets(
                new_ntuple@,
                old(graph).case_at(x),
            ))),
        forall|x: int, y: int|
            #[trigger] final(graph).node_set().contains(x) && #[trigger] final(graph).node_set().contains(y) && x != r
                && y != r ==> (final(graph).adjacent(x, y) <==> old(graph).adjacent(x, y)),
{
    let ghost g0 = graph.graph;
    let ghost n0 = graph_nodes(g0).dom().len();
    let na = neighbors(&graph.graph, a);
    let nb = neighbors(&graph.graph, b);
    let mut both = na;
    let mut nb2 = nb;
    let ghost na_s = both@;
    let ghost nb_s = nb2@;
    both.append(&mut nb2);
    let adj = distinct_others(&both, a, b);
    proof {
        assert forall|i: int| 0 <= i < adj@.len() implies graph_nodes(g0).contains_key(#[trigger] adj@[i] as int) by {
            let w = choose|w: int| 0 <= w < both@.len() && both@[w] == adj@[i];
            if w < na_s.len() {
                assert(na_s[w] == both@[w]);
                assert(joined(g0, a as int, na_s[w] as int));
            } else {
                assert(nb_s[w - na_s.len()] == both@[w]);
                assert(joined(g0, b as int, nb_s[w - na_s.len()] as int));
            }
        }
        let adj_i = adj@.map_values(|x: usize| x as int);
        assert(adj_i.no_duplicates()) by {
            assert forall|i: int, j: int| 0 <= i < adj_i.len() && 0 <= j < adj_i.len() && i != j implies adj_i[i] != adj_i[j] by {
                assert(adj@[i] != adj@[j]);
            }
        }
        adj_i.unique_seq_to_set();
        assert(adj_i.to_set().subset_of(graph_nodes(g0).dom())) by {
            assert forall|x: int| adj_i.to_set().contains(x) implies graph_nodes(g0).dom().contains(x) by {
                let w = choose|w: int| 0 <= w < adj_i.len() && adj_i[w] == x;
                assert(graph_nodes(g0).contains_key(adj@[w] as int));
            }
        }
        vstd::set_lib::lemma_len_subset(adj_i.to_set(), graph_nodes(g0).dom());
        assert(adj@.len() <= n0);
    }
    let id = graph.cases.len();
    let ghost c0 = graph.cases@;
    let copy = new_ntuple.duplicate();
    let ghost nt = copy;
    graph.cases.push(copy);
    assert(graph.cases@ == c0.push(nt));
    let n = add_node(&mut graph.graph, id);
    let ghost g1 = graph.graph;
    let m = adj.len();
    for k in 0..m
        invariant
            m == adj@.len(),
            graph_sane(graph.graph),
            graph_nodes(graph.graph) == graph_nodes(g1),
            edge_bound(graph.graph) <= edge_bound(g1) + k,
            node_bound(graph.graph) == node_bound(g1),
            id == graph.cases@.len() - 1,
            graph.cases@ == c0.push(nt),
            forall|e: int| #[trigger] graph_edges(graph.graph).contains_key(e) ==> graph_edges(g1).contains_key(e) || (graph_edges(graph.graph)[e].0 == n && graph_edges(graph.graph)[e].1 != n && adj@.contains(graph_edges(graph.graph)[e].1 as usize) && tuple_meets(graph.cases@[id as int]@, graph.cases@[graph_nodes(g1)[graph_edges(graph.graph)[e].1] as int]@)),
            forall|e: int| #[trigger] graph_edges(g1).contains_key(e) ==> graph_edges(graph.graph).contains_key(e) && graph_edges(graph.graph)[e] == graph_edges(g1)[e],
            forall|j: int| 0 <= j < k && tuple_meets(graph.cases@[id as int]@, graph.cases@[graph_nodes(g1)[#[trigger] adj@[j] as int] as int]@) ==> joined(graph.graph, n as int, adj@[j] as int),
    {
        let x = adj[k];
        assert(graph_nodes(g0).contains_key(adj@[k as int] as int));
        let w = match node_weight(&graph.graph, x) {
            Some(w) => w,
            None => 0,
        };
        if graph.cases[id].intersects_with(&graph.cases[w]) {
            assert(graph_nodes(graph.graph).contains_key(n as int));
            assert(graph_nodes(graph.graph).contains_key(x as int));
            let ghost before = graph.graph;
            let e2 = add_edge(&mut graph.graph, n, x);
            proof {
                assert(graph_edges(graph.graph).contains_key(e2 as int) && graph_edges(graph.graph)[e2 as int] == (n as int, x as int));
                assert(adj@[k as int] == x);
                assert forall|j: int| 0 <= j < k + 1 && tuple_meets(graph.cases@[id as int]@, graph.cases@[graph_nodes(g1)[#[trigger] adj@[j] as int] as int]@) implies joined(graph.graph, n as int, adj@[j] as int) by {
                    if j < k {
                        assert(joined(before, n as int, adj@[j] as int));
                        let f = choose|f: int| #[trigger] graph_edges(before).contains_key(f) && (graph_edges(before)[f] == (n as int, adj@[j] as int) || graph_edges(before)[f] == (adj@[j] as int, n as int));
                        assert(f != e2);
                        assert(graph_edges(graph.graph).contains_key(f));
                    }
                }
                assert forall|e: int| #[trigger] graph_edges(graph.graph).contains_key(e) implies graph_edges(g1).contains_key(e) || (graph_edges(graph.graph)[e].0 == n && graph_edges(graph.graph)[e].1 != n && adj@.contains(graph_edges(graph.graph)[e].1 as usize) && tuple_meets(graph.cases@[id as int]@, graph.cases@[graph_nodes(g1)[graph_edges(graph.graph)[e].1] as int]@)) by {
                    if e != e2 {
                        assert(graph_edges(before).contains_key(e));
                    } else {
                        assert(graph_nodes(g0).contains_key(x as int));
                    }
                }
            }
        }
    }
    let ghost g2 = graph.graph;
    remove_node(&mut graph.graph, a);
    remove_node(&mut graph.graph, b);
    proof {
        let nodes = graph_nodes(graph.graph);
        let edges = graph_edges(graph.graph);
        assert(nodes == graph_nodes(g0).insert(n as int, id).remove(a as int).remove(b as int));
        assert(n != a && n != b);
        assert forall|i: int| #[trigger] nodes.contains_key(i) implies nodes[i] < graph.cases@.len() by {
            assert(graph_nodes(g0).insert(n as int, id).contains_key(i));
        }
        assert forall|c: int| 0 <= c < graph.cases@.len() implies case_ok(#[trigger] graph.cases@[c]@) by {
            if c < id {
                assert(graph.cases@[c] == c0[c]);
                assert(case_ok(c0[c]@));
            } else {
                assert(graph.cases@[c] == nt);
            }
        }
        assert forall|e: int| #[trigger] edges.contains_key(e) implies edges[e].0 != edges[e].1 && tuple_meets(
            graph.cases@[nodes[edges[e].0] as int]@,
            graph.cases@[nodes[edges[e].1] as int]@,
        ) by {
            assert(graph_edges(g2).contains_key(e));
            assert(edges[e] == graph_edges(g2)[e]);
            if graph_edges(g1).contains_key(e) {
                assert(graph_edges(g0).contains_key(e));
                let (x, y) = graph_edges(g0)[e];
                assert(graph_nodes(g0).contains_key(x) && graph_nodes(g0).contains_key(y));
                assert(graph.cases@[graph_nodes(g0)[x] as int] == c0[graph_nodes(g0)[x] as int]);
                assert(graph.cases@[graph_nodes(g0)[y] as int] == c0[graph_nodes(g0)[y] as int]);
            } else {
                let y = graph_edges(g2)[e].1;
                assert(graph_nodes(g1).contains_key(y));
            }
        }
        assert(graph_nodes(g0).dom().contains(a as int));
        assert(nodes.dom() =~= graph_nodes(g0).dom().insert(n as int).remove(a as int).remove(b as int));
        assert(nodes.dom().len() == n0 - 1);
        assert forall|i: int| #[trigger] old(graph).node_set().contains(i) && i != a && i != b implies graph.case_at(i) == old(graph).case_at(i) by {
            assert(graph_nodes(g0)[i] < id);
            assert(graph.cases@[graph_nodes(g0)[i] as int] == c0[graph_nodes(g0)[i] as int]);
        }
        // A final edge is a surviving edge of the graph before the removals.
        assert forall|e: int| #[trigger] edges.contains_key(e) implies graph_edges(g2).contains_key(e) && edges[e] == graph_edges(g2)[e]
            && edges[e].0 != a && edges[e].1 != a && edges[e].0 != b && edges[e].1 != b by {}
        assert forall|e: int| #[trigger] graph_edges(g2).contains_key(e) && graph_edges(g2)[e].0 != a && graph_edges(g2)[e].1 != a
            && graph_edges(g2)[e].0 != b && graph_edges(g2)[e].1 != b implies edges.contains_key(e) by {}
        assert(!graph_nodes(g0).contains_key(n as int));
        assert forall|x: int| #[trigger] graph.node_set().contains(x) && x != n implies (graph.adjacent(n as int, x) <==> (
            (old(graph).adjacent(a as int, x) || old(graph).adjacent(b as int, x)) && tuple_meets(
                new_ntuple@,
                old(graph).case_at(x),
            ))) by {
            assert(graph_nodes(g0).contains_key(x));
            assert(x != a && x != b);
            assert(old(graph).case_at(x) == graph.cases@[graph_nodes(g1)[x] as int]@);
            assert(new_ntuple@ == graph.cases@[id as int]@);
            if graph.adjacent(n as int, x) {
                let e = choose|e: int| #[trigger] edges.contains_key(e) && (edges[e] == (n as int, x) || edges[e] == (x, n as int));
                assert(graph_edges(g2).contains_key(e));
                if graph_edges(g1).contains_key(e) {
                    assert(graph_edges(g0).contains_key(e));
                    assert(false);
                }
                assert(edges[e] == (n as int, x));
                assert(adj@.contains(x as usize));
                let j = choose|j: int| 0 <= j < adj@.len() && adj@[j] == x as usize;
                assert(both@.contains(adj@[j]));
                let w = choose|w: int| 0 <= w < both@.len() && both@[w] == adj@[j];
                if w < na_s.len() {
                    assert(na_s[w] == both@[w]);
                    assert(joined(g0, a as int, na_s[w] as int));
                } else {
                    assert(nb_s[w - na_s.len()] == both@[w]);
                    assert(joined(g0, b as int, nb_s[w - na_s.len()] as int));
                }
            }
            if (old(graph).adjacent(a as int, x) || old(graph).adjacent(b as int, x)) && tuple_meets(new_ntuple@, old(graph).case_at(x)) {
                let xu = x as usize;
                assert(0 <= x < u32::MAX);
                assert(both@.contains(xu)) by {
                    if old(graph).adjacent(a as int, x) {
                        let f = choose|f: int| #[trigger] graph_edges(g0).contains_key(f) && (graph_edges(g0)[f] == (a as int, x) || graph_edges(g0)[f] == (x, a as int));
                        assert(na_s.contains(xu));
                        let w = choose|w: int| 0 <= w < na_s.len() && na_s[w] == xu;
                        assert(both@[w] == xu);
                    } else {
                        let f = choose|f: int| #[trigger] graph_edges(g0).contains_key(f) && (graph_edges(g0)[f] == (b as int, x) || graph_edges(g0)[f] == (x, b as int));
                        assert(nb_s.contains(xu));
                        let w = choose|w: int| 0 <= w < nb_s.len() && nb_s[w] == xu;
                        assert(both@[na_s.len() + w] == xu);
                    }
                }
                let w = choose|w: int| 0 <= w < both@.len() && both@[w] == xu;
                assert(adj@.contains(both@[w]));
                let j = choose|j: int| 0 <= j < adj@.len() && adj@[j] == xu;
                assert(joined(g2, n as int, adj@[j] as int));
                let f = choose|f: int| #[trigger] graph_edges(g2).contains_key(f) && (graph_edges(g2)[f] == (n as int, x) || graph_edges(g2)[f] == (x, n as int));
                assert(edges.contains_key(f));
            }
        }
        assert forall|x: int, y: int| #[trigger] graph.node_set().contains(x) && #[trigger] graph.node_set().contains(y) && x != n
            && y != n implies (graph.adjacent(x, y) <==> old(graph).adjacent(x, y)) by {
            assert(x != a && x != b && y != a && y != b);
            if graph.adjacent(x, y) {
                let e = choose|e: int| #[trigger] edges.contains_key(e) && (edges[e] == (x, y) || edges[e] == (y, x));
                assert(graph_edges(g2).contains_key(e));
                assert(graph_edges(g1).contains_key(e));
                assert(graph_edges(g0).contains_key(e));
            }
            if old(graph).adjacent(x, y) {
                let e = choose|e: int| #[trigger] graph_edges(g0).contains_key(e) && (graph_edges(g0)[e] == (x, y) || graph_edges(g0)[e] == (y, x));
                assert(graph_edges(g1).contains_key(e));
                assert(graph_edges(g2).contains_key(e));
                assert(edges.contains_key(e));
            }
        }
    }
    n
}


/// Merges the two ends of an edge into the intersection of their test
/// cases. Returns the new node.
pub fn join_nodes_on_edge(graph: &mut NTupleGraph, a: usize, b: usize) -> (r: usize)
    requires
        old(graph).wf(),
        old(graph).has_edge(a as int, b as int),
    ensures
        final(graph).wf(),
        final(graph).num_nodes() == old(graph).num_nodes() - 1,
        final(graph).case_at(r as int) == tuple_meet(old(graph).case_at(a as int), old(graph).case_at(b as int)),
        final(graph).node_set() == old(graph).node_set().remove(a as int).remove(b as int).insert(r as int),
        !old(graph).node_set().contains(r as int),
        forall|i: int| #[trigger] old(graph).node_set().contains(i) && i != a && i != b ==> final(graph).case_at(i) == old(graph).case_at(i),
        forall|x: int|
            #[trigger] final(graph).node_set().contains(x) && x != r ==> (final(graph).adjacent(r as int, x) <==> (
            (old(graph).adjacent(a as int, x) || old(graph).adjacent(b as int, x)) && tuple_meets(
                tuple_meet(old(graph).case_at(a as int), old(graph).case_at(b as int)),
                old(graph).case_at(x),
            ))),
        forall|x: int, y: int|
            #[trigger] final(graph).node_set().contains(x) && #[trigger] final(graph).node_set().contains(y) && x != r
                && y != r ==> (final(graph).adjacent(x, y) <==> old(graph).adjacent(x, y)),
{
    let ghost e = choose|e: int| #[trigger] graph_edges(graph.graph).contains_key(e) && graph_edges(graph.graph)[e] == (a as int, b as int);
    assert(graph_edges(graph.graph).contains_key(e));
    let wa = match node_weight(&graph.graph, a) {
        Some(w) => w,
        None => 0,
    };
    let wb = match node_weight(&graph.graph, b) {
        Some(w) => w,
        None => 0,
    };
    assert(case_ok(graph.cases@[wa as int]@));
    assert(case_ok(graph.cases@[wb as int]@));
    let merged = graph.cases[wa].intersect(&graph.cases[wb]);
    match merged {
        Some(m) => {
            proof {
                lemma_meet_ok(graph.cases@[wa as int]@, graph.cases@[wb as int]@);
            }
            replace_nodes(graph, a, b, &m)
        },
        None => {
            proof {
                assert(false);
            }
            a
        },
    }
}

/// How the next edge to merge is chosen.
#[derive(Debug, PartialEq, Eq, Structural, Clone, Copy)]
pub enum Strategy {
    /// The first edge.
    Monke,
    /// The fewest neighbours that only one end has.
    LeastLosingEdges,
    /// The most neighbours that only one end has.
    MostLosingEdges,
    /// The fewest nodes no longer reachable from the first end after the
    /// merge.
    LeastLosingNodesReachable,
    /// The fewest connected components added by the merge.
    LeastLosingComponents,
}

/// The number of distinct values of `x` that `y` lacks.
pub open spec fn missing_count(x: Seq<usize>, y: Seq<usize>) -> nat
    decreases x.len(),
{
    if x.len() == 0 {
        0
    } else {
        missing_count(x.drop_last(), y) + if !y.contains(x.last()) && !x.drop_last().contains(
            x.last(),
        ) {
            1nat
        } else {
            0nat
        }
    }
}

fn seq_contains(v: &Vec<usize>, upto: usize, x: usize) -> (r: bool)
    requires
        upto <= v@.len(),
    ensures
        r == v@.take(upto as int).contains(x),
{
    for k in 0..upto
        invariant
            upto <= v@.len(),
            forall|j: int| 0 <= j < k ==> v@[j] != x,
    {
        if v[k] == x {
            assert(v@.take(upto as int)[k as int] == x);
            return true;
        }
    }
    proof {
        if v@.take(upto as int).contains(x) {
            let j = choose|j: int| 0 <= j < upto && v@.take(upto as int)[j] == x;
            assert(v@[j] == x);
        }
    }
    false
}

fn count_missing(x: &Vec<usize>, y: &Vec<usize>) -> (r: usize)
    ensures
        r == missing_count(x@, y@),
{
    let mut count: usize = 0;
    let n = x.len();
    for k in 0..n
        invariant
            n == x@.len(),
            count == missing_count(x@.take(k as int), y@),
            count <= k,
    {
        let v = x[k];
        assert(x@.take(k + 1).drop_last() =~= x@.take(k as int));
        assert(x@.take(k + 1).last() == v);
        let in_y = seq_contains(y, y.len(), v);
        assert(y@.take(y@.len() as int) =~= y@);
        let seen = seq_contains(x, k, v);
        if !in_y && !seen {
            count = count + 1;
        }
    }
    assert(x@.take(n as int) =~= x@);
    count
}

/// The number of values that only one of the two neighbour lists holds,
/// each counted once.
fn disjunct_neighbour_count(na: &Vec<usize>, nb: &Vec<usize>) -> (r: i128)
    ensures
        r == missing_count(na@, nb@) + missing_count(nb@, na@),
{
    let only_a = count_missing(na, nb);
    let only_b = count_missing(nb, na);
    only_a as i128 + only_b as i128
}

/// The nodes an edge joins to `a`.
pub open spec fn neighbour_set(g: CaseGraph, a: int) -> Set<usize> {
    Set::new(|x: usize| joined(g, a, x as int))
}

/// The number of nodes joined to only one of `a` and `b`.
pub open spec fn lost_neighbours(g: CaseGraph, a: int, b: int) -> int {
    neighbour_set(g, a).difference(neighbour_set(g, b)).len() as int + neighbour_set(g, b).difference(
        neighbour_set(g, a),
    ).len() as int
}

/// The losing-edges score of edge `e`.
pub open spec fn edge_score(g: CaseGraph, e: int) -> int {
    lost_neighbours(g, graph_edges(g)[e].0, graph_edges(g)[e].1)
}

proof fn lemma_missing_count_set(x: Seq<usize>, y: Seq<usize>)
    ensures
        missing_count(x, y) == x.to_set().difference(y.to_set()).len(),
        x.to_set().difference(y.to_set()).finite(),
    decreases x.len(),
{
    vstd::seq_lib::seq_to_set_is_finite(x);
    if x.len() == 0 {
        assert(x.to_set().difference(y.to_set()) =~= Set::<usize>::empty());
    } else {
        let d = x.drop_last();
        let z = x.last();
        lemma_missing_count_set(d, y);
        vstd::seq_lib::seq_to_set_is_finite(d);
        assert(x =~= d.push(z));
        assert(x.to_set() =~= d.to_set().insert(z)) by {
            assert forall|w: usize| x.to_set().contains(w) <==> d.to_set().insert(z).contains(w) by {
                if x.contains(w) {
                    let i = choose|i: int| 0 <= i < x.len() && x[i] == w;
                    if i < d.len() {
                        assert(d[i] == w);
                    }
                }
                if d.contains(w) {
                    let i = choose|i: int| 0 <= i < d.len() && d[i] == w;
                    assert(x[i] == w);
                }
                if w == z {
                    assert(x[x.len() - 1] == w);
                }
            }
        }
        let dd = d.to_set().difference(y.to_set());
        if y.contains(z) || d.contains(z) {
            assert(x.to_set().difference(y.to_set()) =~= dd);
        } else {
            assert(x.to_set().difference(y.to_set()) =~= dd.insert(z));
            assert(!dd.contains(z));
        }
    }
}

/// The neighbour list of `a` holds exactly the nodes joined to `a`.
proof fn lemma_neighbour_list(g: CaseGraph, a: int, na: Seq<usize>)
    requires
        graph_sane(g),
        forall|i: int| 0 <= i < na.len() ==> joined(g, a, #[trigger] na[i] as int),
        forall|e: int|
            #[trigger] graph_edges(g).contains_key(e) && graph_edges(g)[e].0 == a ==> na.contains(
                graph_edges(g)[e].1 as usize,
            ),
        forall|e: int|
            #[trigger] graph_edges(g).contains_key(e) && graph_edges(g)[e].1 == a ==> na.contains(
                graph_edges(g)[e].0 as usize,
            ),
    ensures
        na.to_set() == neighbour_set(g, a),
{
    assert forall|x: usize| na.to_set().contains(x) <==> neighbour_set(g, a).contains(x) by {
        if na.contains(x) {
            let i = choose|i: int| 0 <= i < na.len() && na[i] == x;
        }
        if joined(g, a, x as int) {
            let e = choose|e: int| #[trigger] graph_edges(g).contains_key(e) && (graph_edges(g)[e] == (a, x as int) || graph_edges(g)[e] == (x as int, a));
        }
    }
    assert(na.to_set() =~= neighbour_set(g, a));
}

/// The index of the first smallest score, or of the first largest.
fn first_best(scores: &Vec<i128>, largest: bool) -> (r: usize)
    requires
        scores@.len() > 0,
    ensures
        r < scores@.len(),
        !largest ==> forall|j: int| 0 <= j < scores@.len() ==> scores@[j] >= scores@[r as int],
        !largest ==> forall|j: int| 0 <= j < r ==> scores@[j] > scores@[r as int],
        largest ==> forall|j: int| 0 <= j < scores@.len() ==> scores@[j] <= scores@[r as int],
        largest ==> forall|j: int| 0 <= j < r ==> scores@[j] < scores@[r as int],
{
    let mut best: usize = 0;
    let n = scores.len();
    for k in 1..n
        invariant
            n == scores@.len(),
            best < k,
            !largest ==> forall|j: int| 0 <= j < k ==> scores@[j] >= scores@[best as int],
            !largest ==> forall|j: int| 0 <= j < best ==> scores@[j] > scores@[best as int],
            largest ==> forall|j: int| 0 <= j < k ==> scores@[j] <= scores@[best as int],
            largest ==> forall|j: int| 0 <= j < best ==> scores@[j] < scores@[best as int],
    {
        if (!largest && scores[k] < scores[best]) || (largest && scores[k] > scores[best]) {
            best = k;
        }
    }
    best
}

impl NTupleGraph {
    /// The score of merging the ends of edge `e` under `strategy`; lower is
    /// better except for `MostLosingEdges`.
    fn score(&self, strategy: Strategy, e: usize, initial_components: usize) -> (r: i128)
        requires
            self.wf(),
            graph_edges(self.graph).contains_key(e as int),
        ensures
            strategy == Strategy::LeastLosingEdges || strategy == Strategy::MostLosingEdges ==> r == edge_score(self.graph, e as int),
    {
        let (a, b) = self.endpoints(e);
        match strategy {
            Strategy::LeastLosingEdges | Strategy::MostLosingEdges => {
                let na = neighbors(&self.graph, a);
                let nb = neighbors(&self.graph, b);
                proof {
                    lemma_neighbour_list(self.graph, a as int, na@);
                    lemma_neighbour_list(self.graph, b as int, nb@);
                    lemma_missing_count_set(na@, nb@);
                    lemma_missing_count_set(nb@, na@);
                }
                disjunct_neighbour_count(&na, &nb)
            },
            Strategy::LeastLosingNodesReachable => {
                let mut working = self.duplicate();
                proof {
                    let k = choose|k: int| #[trigger] graph_edges(self.graph).contains_key(k) && graph_edges(self.graph)[k] == (a as int, b as int);
                    assert(graph_nodes(self.graph).contains_key(a as int));
                }
                let initially_reachable = reachable_nodes(&working.graph, a).len();
                let joined = join_nodes_on_edge(&mut working, a, b);
                assert(graph_nodes(working.graph).contains_key(joined as int));
                let reachable_after_the_join = reachable_nodes(&working.graph, joined).len();
                initially_reachable as i128 - reachable_after_the_join as i128
            },
            Strategy::LeastLosingComponents => {
                let mut working = self.duplicate();
                join_nodes_on_edge(&mut working, a, b);
                let new_component_count = count_components(&working.graph);
                new_component_count as i128 - initial_components as i128
            },
            Strategy::Monke => 0,
        }
    }

    /// The live edge that `strategy` merges next: for `Monke` the lowest
    /// live edge index; otherwise, in ascending edge index order, the first
    /// edge with the smallest score (the largest for `MostLosingEdges`).
    fn pick_edge(&self, strategy: Strategy) -> (e: usize)
        requires
            self.wf(),
            self.num_edges() > 0,
        ensures
            graph_edges(self.graph).contains_key(e as int),
            strategy == Strategy::Monke ==> forall|f: int| #[trigger] graph_edges(self.graph).contains_key(f) ==> e <= f,
            strategy == Strategy::LeastLosingEdges ==> forall|f: int| #[trigger] graph_edges(self.graph).contains_key(f)
                ==> edge_score(self.graph, e as int) <= edge_score(self.graph, f) && (f < e ==> edge_score(self.graph, e as int) < edge_score(self.graph, f)),
            strategy == Strategy::MostLosingEdges ==> forall|f: int| #[trigger] graph_edges(self.graph).contains_key(f)
                ==> edge_score(self.graph, e as int) >= edge_score(self.graph, f) && (f < e ==> edge_score(self.graph, e as int) > edge_score(self.graph, f)),
    {
        let edges = self.some_edge();
        if strategy == Strategy::Monke {
            proof {
                assert forall|f: int| #[trigger] graph_edges(self.graph).contains_key(f) implies edges@[0] <= f by {
                    assert(edges@.contains(f as usize));
                    let k = choose|k: int| 0 <= k < edges@.len() && edges@[k] == f as usize;
                    if k > 0 {
                        assert(edges@[0] < edges@[k]);
                    }
                    assert(0 <= f < edge_bound(self.graph));
                }
            }
            edges[0]
        } else {
            let initial_components = count_components(&self.graph);
            let mut scores: Vec<i128> = Vec::new();
            let n = edges.len();
            for k in 0..n
                invariant
                    n == edges@.len(),
                    self.wf(),
                    scores@.len() == k,
                    forall|i: int| 0 <= i < edges@.len() ==> graph_edges(self.graph).contains_key(#[trigger] edges@[i] as int),
                    strategy == Strategy::LeastLosingEdges || strategy == Strategy::MostLosingEdges ==> forall|i: int|
                        0 <= i < k ==> #[trigger] scores@[i] == edge_score(self.graph, edges@[i] as int),
            {
                scores.push(self.score(strategy, edges[k], initial_components));
            }
            let best = first_best(&scores, strategy == Strategy::MostLosingEdges);
            proof {
                if strategy == Strategy::LeastLosingEdges || strategy == Strategy::MostLosingEdges {
                    assert forall|f: int| #[trigger] graph_edges(self.graph).contains_key(f) implies exists|k: int|
                        0 <= k < edges@.len() && edges@[k] as int == f && (f < edges@[best as int] ==> k < best) by {
                        assert(edges@.contains(f as usize));
                        let k = choose|k: int| 0 <= k < edges@.len() && edges@[k] == f as usize;
                        assert(0 <= f < edge_bound(self.graph));
                        if f < edges@[best as int] && k >= best {
                            if k > best {
                                assert(edges@[best as int] < edges@[k]);
                            }
                        }
                    }
                    let e = edges@[best as int] as int;
                    assert(scores@[best as int] == edge_score(self.graph, e));
                    if strategy == Strategy::LeastLosingEdges {
                        assert forall|f: int| #[trigger] graph_edges(self.graph).contains_key(f) implies edge_score(self.graph, e) <= edge_score(self.graph, f)
                            && (f < e ==> edge_score(self.graph, e) < edge_score(self.graph, f)) by {
                            let k = choose|k: int| 0 <= k < edges@.len() && edges@[k] as int == f && (f < edges@[best as int] ==> k < best);
                            assert(scores@[k] == edge_score(self.graph, edges@[k] as int));
                        }
                    } else {
                        assert forall|f: int| #[trigger] graph_edges(self.graph).contains_key(f) implies edge_score(self.graph, e) >= edge_score(self.graph, f)
                            && (f < e ==> edge_score(self.graph, e) > edge_score(self.graph, f)) by {
                            let k = choose|k: int| 0 <= k < edges@.len() && edges@[k] as int == f && (f < edges@[best as int] ==> k < best);
                            assert(scores@[k] == edge_score(self.graph, edges@[k] as int));
                        }
                    }
                }
            }
            edges[best]
        }
    }

    /// Merges edges chosen by `strategy` until no edge is left.
    fn run(&self, strategy: Strategy) -> (r: NTupleGraph)
        requires
            self.wf(),
        ensures
            r.wf(),
            r.num_edges() == 0,
            r.num_nodes() <= self.num_nodes(),
            self.num_edges() > 0 ==> r.num_nodes() < self.num_nodes(),
            self.num_edges() == 0 ==> r.node_set() == self.node_set() && forall|i: int|
                #[trigger] r.node_set().contains(i) ==> r.case_at(i) == self.case_at(i),
            exists|groups: Map<int, Set<int>>, kept: Set<int>| merged_from(r, *self, groups, kept),
    {
        let mut graph = self.duplicate();
        let ghost mut groups = Map::new(|i: int| self.node_set().contains(i), |i: int| set![i]);
        let ghost mut kept = self.node_set();
        proof {
            lemma_groups_start(self.node_set(), |i: int| graph.case_at(i), |i: int| self.case_at(i));
        }
        while edge_count(&graph.graph) > 0
            invariant
                self.wf(),
                graph.wf(),
                graph.num_nodes() <= self.num_nodes(),
                graph.num_nodes() < self.num_nodes() || graph.num_edges() == self.num_edges(),
                self.num_edges() == 0 ==> graph.node_set() == self.node_set() && kept == self.node_set(),
                merged_from(graph, *self, groups, kept),
            decreases graph.num_nodes(),
        {
            let chosen = graph.pick_edge(strategy);
            let (a, b) = graph.endpoints(chosen);
            let ghost before = graph;
            proof {
                let e = choose|e: int| #[trigger] graph_edges(graph.graph).contains_key(e) && graph_edges(graph.graph)[e] == (a as int, b as int);
                assert(graph_edges(graph.graph).contains_key(e));
                assert(a != b);
                assert(graph.node_set().contains(a as int));
                assert(graph.node_set().contains(b as int));
                if self.num_edges() == 0 {
                    assert(graph.num_nodes() == self.num_nodes());
                }
            }
            let r = join_nodes_on_edge(&mut graph, a, b);
            proof {
                let new_groups = groups.remove(a as int).remove(b as int).insert(r as int, groups[a as int] + groups[b as int]);
                let new_kept = kept.remove(a as int).remove(b as int);
                lemma_merge_groups(
                    before.node_set(),
                    |i: int| before.case_at(i),
                    graph.node_set(),
                    |i: int| graph.case_at(i),
                    self.node_set(),
                    |i: int| self.case_at(i),
                    groups,
                    kept,
                    a as int,
                    b as int,
                    r as int,
                );
                groups = new_groups;
                kept = new_kept;
            }
        }
        proof {
            lemma_kept(graph.node_set(), |i: int| graph.case_at(i), self.node_set(), |i: int| self.case_at(i), groups, kept);
        }
        graph
    }
}

/// `groups` gives each node of `r` the nodes of `g` merged into it: the
/// groups are non-empty and split the nodes of `g` between them. A node in
/// `kept` is a node of `g` left as it was; every other node of `r` stands for
/// at least two nodes of `g`.
pub open spec fn merged_from(r: NTupleGraph, g: NTupleGraph, groups: Map<int, Set<int>>, kept: Set<int>) -> bool {
    merged_sets(r.node_set(), |i: int| r.case_at(i), g.node_set(), |i: int| g.case_at(i), groups, kept)
}

/// The graph over the given test cases: one node per case, and an edge
/// between two cases exactly when they can hold together.
#[verifier::loop_isolation(false)]
#[verifier::spinoff_prover]
pub fn create_graph(ntuples: &Vec<NTupleSingleInterval>) -> (r: NTupleGraph)
    requires
        ntuples@.len() <= MAX_CASES,
        forall|i: int| 0 <= i < ntuples@.len() ==> case_ok(#[trigger] ntuples@[i]@),
    ensures
        r.wf(),
        r.num_nodes() == ntuples@.len(),
        forall|i: int| #[trigger] r.node_set().contains(i) ==> 0 <= r.origin(i) < ntuples@.len() && r.case_at(i) == ntuples@[r.origin(i)]@,
        forall|i: int, j: int| #[trigger] r.node_set().contains(i) && #[trigger] r.node_set().contains(j) && r.origin(i) == r.origin(j) ==> i == j,
        forall|k: int| 0 <= k < ntuples@.len() ==> #[trigger] r.has_origin(k),
        r.simple(),
        forall|x: int, y: int|
            #[trigger] r.node_set().contains(x) && #[trigger] r.node_set().contains(y) && x != y ==> (
            r.adjacent(x, y) <==> tuple_meets(r.case_at(x), r.case_at(y))),
{
    let mut graph = new_graph();
    let mut cases: Vec<NTupleSingleInterval> = Vec::new();
    let mut ids: Vec<usize> = Vec::new();
    let n = ntuples.len();
    for k in 0..n
        invariant
            n == ntuples@.len(),
            n <= MAX_CASES,
            graph_sane(graph),
            cases@.len() == k,
            ids@.len() == k,
            forall|j: int| 0 <= j < k ==> (#[trigger] cases@[j])@ == ntuples@[j]@,
            forall|j: int| 0 <= j < k ==> graph_nodes(graph).contains_key(#[trigger] ids@[j] as int) && graph_nodes(graph)[ids@[j] as int] == j,
            forall|i: int| #[trigger] graph_nodes(graph).contains_key(i) ==> graph_nodes(graph)[i] < k && ids@[graph_nodes(graph)[i] as int] as int == i,
            graph_nodes(graph).dom().len() == k,
            node_bound(graph) <= k,
            edge_bound(graph) == 0,
            graph_edges(graph).dom().len() == 0,
    {
        cases.push(ntuples[k].duplicate());
        let ghost before = graph;
        let id = add_node(&mut graph, k);
        proof {
            assert(graph_nodes(graph).dom() =~= graph_nodes(before).dom().insert(id as int));
        }
        ids.push(id);
    }
    let ghost g0 = graph;
    for p in 0..n
        invariant
            n == ntuples@.len(),
            n <= MAX_CASES,
            graph_sane(graph),
            cases@.len() == n,
            ids@.len() == n,
            graph_nodes(graph) == graph_nodes(g0),
            node_bound(graph) <= n,
            edge_bound(graph) <= p * n,
            forall|j: int| 0 <= j < n ==> graph_nodes(graph).contains_key(#[trigger] ids@[j] as int) && graph_nodes(graph)[ids@[j] as int] == j,
            forall|e: int| #[trigger] graph_edges(graph).contains_key(e) ==> edge_ok(graph, cases@, e),
            forall|a: int, b: int| 0 <= a < p && a < b < n && tuple_meets(#[trigger] cases@[a]@, #[trigger] cases@[b]@) ==> joined(graph, ids@[a] as int, ids@[b] as int),
            simple_edges(graph),
            edges_before(graph, p as int, 0),
    {
        for q in p + 1..n
            invariant
                n == ntuples@.len(),
                p < n,
                graph_sane(graph),
                cases@.len() == n,
                ids@.len() == n,
                graph_nodes(graph) == graph_nodes(g0),
                node_bound(graph) <= n,
                edge_bound(graph) <= p * n + q,
                forall|j: int| 0 <= j < n ==> graph_nodes(graph).contains_key(#[trigger] ids@[j] as int) && graph_nodes(graph)[ids@[j] as int] == j,
                forall|e: int| #[trigger] graph_edges(graph).contains_key(e) ==> edge_ok(graph, cases@, e),
                forall|a: int, b: int| 0 <= a < p && a < b < n && tuple_meets(#[trigger] cases@[a]@, #[trigger] cases@[b]@) ==> joined(graph, ids@[a] as int, ids@[b] as int),
                forall|b: int| p < b < q && tuple_meets(cases@[p as int]@, #[trigger] cases@[b]@) ==> joined(graph, ids@[p as int] as int, ids@[b] as int),
                simple_edges(graph),
                edges_before(graph, p as int, q as int),
        {
            assert(p * n + q < u32::MAX) by (nonlinear_arith)
                requires p < n, q < n, n <= 0x4000;
            let ghost g_before_q = graph;
            if cases[p].intersects_with(&cases[q]) {
                let ghost before = graph;
                let e = add_edge(&mut graph, ids[p], ids[q]);
                proof {
                    lemma_edge_added(before, graph, cases@, e as int, ids@[p as int] as int, ids@[q as int] as int);
                    assert(graph_edges(graph).contains_key(e as int));
                    assert(joined(graph, ids@[p as int] as int, ids@[q as int] as int));
                }
            } else {
                proof {
                    assert forall|f: int| #[trigger] graph_edges(graph).contains_key(f) implies graph_nodes(graph)[graph_edges(graph)[f].0] < p || (
                        graph_nodes(graph)[graph_edges(graph)[f].0] == p && graph_nodes(graph)[graph_edges(graph)[f].1] < q + 1) by {}
                }
            }
        }
        proof {
            assert forall|f: int| #[trigger] graph_edges(graph).contains_key(f) implies graph_nodes(graph)[graph_edges(graph)[f].0] < p + 1 || (
                graph_nodes(graph)[graph_edges(graph)[f].0] == p + 1 && graph_nodes(graph)[graph_edges(graph)[f].1] < 0) by {}
        }
        assert((p + 1) * n == p * n + n) by (nonlinear_arith);
    }
    let r = NTupleGraph { graph, cases };
    proof {
        assert(edge_bound(r.graph) <= n * n);
        lemma_built(r, ntuples@, ids@);
    }
    r
}

/// No two live edges join the same pair of nodes, either way round.
spec fn simple_edges(g: CaseGraph) -> bool {
    forall|e1: int, e2: int|
        #[trigger] graph_edges(g).contains_key(e1) && #[trigger] graph_edges(g).contains_key(e2) && e1 != e2
            ==> graph_edges(g)[e1] != graph_edges(g)[e2] && graph_edges(g)[e1] != (graph_edges(g)[e2].1, graph_edges(g)[e2].0)
}

/// Every edge joins nodes whose weights come before `(p, q)`.
spec fn edges_before(g: CaseGraph, p: int, q: int) -> bool {
    forall|e: int| #[trigger] graph_edges(g).contains_key(e) ==> graph_nodes(g)[graph_edges(g)[e].0] < p || (
    graph_nodes(g)[graph_edges(g)[e].0] == p && graph_nodes(g)[graph_edges(g)[e].1] < q)
}

/// The edge joins nodes in ascending weight order whose cases can hold
/// together.
spec fn edge_ok(g: CaseGraph, cases: Seq<NTupleSingleInterval>, e: int) -> bool {
    let (x, y) = graph_edges(g)[e];
    graph_nodes(g)[x] < graph_nodes(g)[y] && tuple_meets(cases[graph_nodes(g)[x] as int]@, cases[graph_nodes(g)[y] as int]@)
}

proof fn lemma_edge_added(before: CaseGraph, after: CaseGraph, cases: Seq<NTupleSingleInterval>, e: int, x: int, y: int)
    requires
        !graph_edges(before).contains_key(e),
        graph_edges(after) == graph_edges(before).insert(e, (x, y)),
        graph_nodes(after) == graph_nodes(before),
        graph_nodes(before)[x] < graph_nodes(before)[y],
        tuple_meets(cases[graph_nodes(before)[x] as int]@, cases[graph_nodes(before)[y] as int]@),
        forall|f: int| #[trigger] graph_edges(before).contains_key(f) ==> edge_ok(before, cases, f),
        simple_edges(before),
        edges_before(before, graph_nodes(before)[x] as int, graph_nodes(before)[y] as int),
    ensures
        forall|f: int| #[trigger] graph_edges(after).contains_key(f) ==> edge_ok(after, cases, f),
        forall|a: int, b: int| joined(before, a, b) ==> joined(after, a, b),
        simple_edges(after),
        edges_before(after, graph_nodes(before)[x] as int, graph_nodes(before)[y] as int + 1),
{
    assert forall|e1: int, e2: int|
        #[trigger] graph_edges(after).contains_key(e1) && #[trigger] graph_edges(after).contains_key(e2) && e1 != e2
            implies graph_edges(after)[e1] != graph_edges(after)[e2] && graph_edges(after)[e1] != (graph_edges(after)[e2].1, graph_edges(after)[e2].0) by {
        if e1 == e {
            assert(graph_edges(before).contains_key(e2));
            assert(edge_ok(before, cases, e2));
        } else if e2 == e {
            assert(graph_edges(before).contains_key(e1));
            assert(edge_ok(before, cases, e1));
        } else {
            assert(graph_edges(before).contains_key(e1) && graph_edges(before).contains_key(e2));
        }
    }
    assert forall|f: int| #[trigger] graph_edges(after).contains_key(f) implies graph_nodes(after)[graph_edges(after)[f].0] < graph_nodes(before)[x] as int || (
        graph_nodes(after)[graph_edges(after)[f].0] == graph_nodes(before)[x] as int && graph_nodes(after)[graph_edges(after)[f].1] < graph_nodes(before)[y] as int + 1) by {
        if f != e {
            assert(graph_edges(before).contains_key(f));
        }
    }
    assert forall|f: int| #[trigger] graph_edges(after).contains_key(f) implies edge_ok(after, cases, f) by {
        if f != e {
            assert(edge_ok(before, cases, f));
        }
    }
    assert forall|a: int, b: int| joined(before, a, b) implies joined(after, a, b) by {
        let f = choose|f: int| #[trigger] graph_edges(before).contains_key(f) && (graph_edges(before)[f] == (a, b) || graph_edges(before)[f] == (b, a));
        assert(f != e);
        assert(graph_edges(after).contains_key(f));
        assert(graph_edges(after)[f] == graph_edges(before)[f]);
    }
}

proof fn lemma_built(r: NTupleGraph, ntuples: Seq<NTupleSingleInterval>, ids: Seq<usize>)
    requires
        ntuples.len() <= MAX_CASES,
        graph_sane(r.graph),
        r.cases@.len() == ntuples.len(),
        ids.len() == ntuples.len(),
        node_bound(r.graph) <= ntuples.len(),
        edge_bound(r.graph) <= ntuples.len() * ntuples.len(),
        graph_nodes(r.graph).dom().len() == ntuples.len(),
        forall|i: int| 0 <= i < ntuples.len() ==> case_ok(#[trigger] ntuples[i]@),
        forall|j: int| 0 <= j < ntuples.len() ==> (#[trigger] r.cases@[j])@ == ntuples[j]@,
        forall|j: int| 0 <= j < ntuples.len() ==> graph_nodes(r.graph).contains_key(#[trigger] ids[j] as int) && graph_nodes(r.graph)[ids[j] as int] == j,
        forall|i: int| #[trigger] graph_nodes(r.graph).contains_key(i) ==> graph_nodes(r.graph)[i] < ntuples.len() && ids[graph_nodes(r.graph)[i] as int] as int == i,
        forall|e: int| #[trigger] graph_edges(r.graph).contains_key(e) ==> edge_ok(r.graph, r.cases@, e),
        forall|a: int, b: int| 0 <= a < ntuples.len() && a < b < ntuples.len() && tuple_meets(#[trigger] r.cases@[a]@, #[trigger] r.cases@[b]@) ==> joined(r.graph, ids[a] as int, ids[b] as int),
        simple_edges(r.graph),
    ensures
        r.wf(),
        r.num_nodes() == ntuples.len(),
        forall|i: int| #[trigger] r.node_set().contains(i) ==> 0 <= r.origin(i) < ntuples.len() && r.case_at(i) == ntuples[r.origin(i)]@,
        forall|i: int, j: int| #[trigger] r.node_set().contains(i) && #[trigger] r.node_set().contains(j) && r.origin(i) == r.origin(j) ==> i == j,
        forall|k: int| 0 <= k < ntuples.len() ==> #[trigger] r.has_origin(k),
        r.simple(),
        forall|x: int, y: int|
            #[trigger] r.node_set().contains(x) && #[trigger] r.node_set().contains(y) && x != y ==> (
            r.adjacent(x, y) <==> tuple_meets(r.case_at(x), r.case_at(y))),
{
    let n = ntuples.len();
    let nodes = graph_nodes(r.graph);
    let edges = graph_edges(r.graph);
    assert(n * n <= 0x4000 * 0x4000) by (nonlinear_arith)
        requires n <= 0x4000;
    assert(nodes.dom().len() * NODE_ROOM <= 0x4000 * 0x8000) by (nonlinear_arith)
        requires nodes.dom().len() <= 0x4000;
    assert forall|c: int| 0 <= c < r.cases@.len() implies case_ok(#[trigger] r.cases@[c]@) by {
        assert(r.cases@[c]@ == ntuples[c]@);
    }
    assert forall|e: int| #[trigger] edges.contains_key(e) implies edges[e].0 != edges[e].1 && tuple_meets(
        r.cases@[nodes[edges[e].0] as int]@,
        r.cases@[nodes[edges[e].1] as int]@,
    ) by {
        assert(edge_ok(r.graph, r.cases@, e));
    }
    assert forall|i: int| #[trigger] r.node_set().contains(i) implies 0 <= r.origin(i) < ntuples.len() && r.case_at(i) == ntuples[r.origin(i)]@ by {
        assert(nodes.contains_key(i));
        let k = nodes[i] as int;
        assert(r.case_at(i) == ntuples[k]@);
    }
    assert forall|i: int, j: int| #[trigger] r.node_set().contains(i) && #[trigger] r.node_set().contains(j) && r.origin(i) == r.origin(j) implies i == j by {
        assert(nodes.contains_key(i) && nodes.contains_key(j));
    }
    assert forall|k: int| 0 <= k < ntuples.len() implies #[trigger] r.has_origin(k) by {
        assert(nodes.contains_key(ids[k] as int));
        assert(r.node_set().contains(ids[k] as int));
    }
    assert forall|x: int, y: int| #[trigger] r.node_set().contains(x) && #[trigger] r.node_set().contains(y) && x != y implies (
        r.adjacent(x, y) <==> tuple_meets(r.case_at(x), r.case_at(y))) by {
        assert(nodes.contains_key(x));
        assert(nodes.contains_key(y));
        let a = nodes[x] as int;
        let b = nodes[y] as int;
        assert(ids[a] as int == x);
        assert(ids[b] as int == y);
        assert(r.case_at(x) == r.cases@[a]@);
        assert(r.case_at(y) == r.cases@[b]@);
        lemma_meets_symmetric(r.cases@[a]@, r.cases@[b]@);
        if r.adjacent(x, y) {
            let e = choose|e: int| #[trigger] edges.contains_key(e) && (edges[e] == (x, y) || edges[e] == (y, x));
            assert(edge_ok(r.graph, r.cases@, e));
        }
        if tuple_meets(r.case_at(x), r.case_at(y)) {
            if a < b {
                assert(joined(r.graph, ids[a] as int, ids[b] as int));
            } else {
                assert(a != b);
                assert(joined(r.graph, ids[b] as int, ids[a] as int));
            }
        }
    }
}

/// Merges edges chosen by `strategy` until no edge is left.
pub fn reduce(graph: &NTupleGraph, strategy: Strategy) -> (r: NTupleGraph)
    requires
        graph.wf(),
    ensures
        r.wf(),
        r.num_edges() == 0,
        r.num_nodes() <= graph.num_nodes(),
        forall|i: int| #[trigger] r.node_set().contains(i) ==> case_ok(r.case_at(i)),
        graph.num_edges() > 0 ==> r.num_nodes() < graph.num_nodes(),
        graph.num_edges() == 0 ==> r.node_set() == graph.node_set() && forall|i: int|
            #[trigger] r.node_set().contains(i) ==> r.case_at(i) == graph.case_at(i),
        exists|groups: Map<int, Set<int>>, kept: Set<int>| merged_from(r, *graph, groups, kept),
{
    let r = graph.run(strategy);
    proof {
        r.lemma_cases_ok();
    }
    r
}

/// Reducing a graph of two joined nodes leaves one node, holding the
/// intersection of their test cases.
pub proof fn lemma_two_joined_nodes(g: NTupleGraph, r: NTupleGraph, groups: Map<int, Set<int>>, kept: Set<int>, x: int, y: int)
    requires
        r.wf(),
        merged_from(r, g, groups, kept),
        x != y,
        g.node_set() == set![x, y],
        r.num_nodes() < 2,
    ensures
        r.num_nodes() == 1,
        forall|i: int| #[trigger] r.node_set().contains(i) ==> r.case_at(i) == tuple_meet(g.case_at(x), g.case_at(y))
            || r.case_at(i) == tuple_meet(g.case_at(y), g.case_at(x)),
{
    reveal(merged_sets);
    let rn = r.node_set();
    assert(g.node_set().contains(x) && g.node_set().contains(y));
    let i = choose|i: int| #[trigger] groups.contains_key(i) && groups[i].contains(x);
    let j = choose|j: int| #[trigger] groups.contains_key(j) && groups[j].contains(y);
    assert(rn.finite());
    if i != j {
        assert(set![i, j].subset_of(rn));
        vstd::set_lib::lemma_len_subset(set![i, j], rn);
        assert(set![i, j].len() == 2) by {
            assert(set![i, j] =~= set![i].insert(j));
        }
    }
    assert(rn.contains(i));
    assert(rn =~= set![i]) by {
        assert forall|k: int| rn.contains(k) implies k == i by {
            if k != i {
                assert(set![i, k].subset_of(rn));
                vstd::set_lib::lemma_len_subset(set![i, k], rn);
                assert(set![i, k] =~= set![i].insert(k));
            }
        }
    }
    assert(rn.len() == 1);
    assert forall|o: int| #[trigger] groups[i].contains(o) implies o == x || o == y by {
        assert(g.node_set().contains(o));
    }
    assert(groups[i].contains(x) && groups[i].contains(y));
}

/// Merges the first edge until no edge is left.
#[allow(non_snake_case)]
pub fn run_MONKE(graph: &NTupleGraph) -> (r: NTupleGraph)
    requires
        graph.wf(),
    ensures
        r.wf(),
        r.num_edges() == 0,
        r.num_nodes() <= graph.num_nodes(),
        forall|i: int| #[trigger] r.node_set().contains(i) ==> case_ok(r.case_at(i)),
        graph.num_edges() > 0 ==> r.num_nodes() < graph.num_nodes(),
        graph.num_edges() == 0 ==> r.node_set() == graph.node_set() && forall|i: int|
            #[trigger] r.node_set().contains(i) ==> r.case_at(i) == graph.case_at(i),
        exists|groups: Map<int, Set<int>>, kept: Set<int>| merged_from(r, *graph, groups, kept),
{
    let r = graph.run(Strategy::Monke);
    proof {
        r.lemma_cases_ok();
    }
    r
}

/// Merges, each time, the edge whose ends have the fewest neighbours only
/// one of them has, until no edge is left.
pub fn run_least_losing_edges(graph: &NTupleGraph) -> (r: NTupleGraph)
    requires
        graph.wf(),
    ensures
        r.wf(),
        r.num_edges() == 0,
        r.num_nodes() <= graph.num_nodes(),
        forall|i: int| #[trigger] r.node_set().contains(i) ==> case_ok(r.case_at(i)),
        graph.num_edges() > 0 ==> r.num_nodes() < graph.num_nodes(),
        graph.num_edges() == 0 ==> r.node_set() == graph.node_set() && forall|i: int|
            #[trigger] r.node_set().contains(i) ==> r.case_at(i) == graph.case_at(i),
        exists|groups: Map<int, Set<int>>, kept: Set<int>| merged_from(r, *graph, groups, kept),
{
    let r = graph.run(Strategy::LeastLosingEdges);
    proof {
        r.lemma_cases_ok();
    }
    r
}

/// Merges, each time, the edge whose ends have the most neighbours only one
/// of them has, until no edge is left.
pub fn run_most_losing_edges(graph: &NTupleGraph) -> (r: NTupleGraph)
    requires
        graph.wf(),
    ensures
        r.wf(),
        r.num_edges() == 0,
        r.num_nodes() <= graph.num_nodes(),
        forall|i: int| #[trigger] r.node_set().contains(i) ==> case_ok(r.case_at(i)),
        graph.num_edges() > 0 ==> r.num_nodes() < graph.num_nodes(),
        graph.num_edges() == 0 ==> r.node_set() == graph.node_set() && forall|i: int|
            #[trigger] r.node_set().contains(i) ==> r.case_at(i) == graph.case_at(i),
        exists|groups: Map<int, Set<int>>, kept: Set<int>| merged_from(r, *graph, groups, kept),
{
    let r = graph.run(Strategy::MostLosingEdges);
    proof {
        r.lemma_cases_ok();
    }
    r
}

/// Merges, each time, the edge whose merge loses the fewest nodes reachable
/// from its first end, until no edge is left.
pub fn run_least_losing_edges_reachable(graph: &NTupleGraph) -> (r: NTupleGraph)
    requires
        graph.wf(),
    ensures
        r.wf(),
        r.num_edges() == 0,
        r.num_nodes() <= graph.num_nodes(),
        forall|i: int| #[trigger] r.node_set().contains(i) ==> case_ok(r.case_at(i)),
        graph.num_edges() > 0 ==> r.num_nodes() < graph.num_nodes(),
        graph.num_edges() == 0 ==> r.node_set() == graph.node_set() && forall|i: int|
            #[trigger] r.node_set().contains(i) ==> r.case_at(i) == graph.case_at(i),
        exists|groups: Map<int, Set<int>>, kept: Set<int>| merged_from(r, *graph, groups, kept),
{
    let r = graph.run(Strategy::LeastLosingNodesReachable);
    proof {
        r.lemma_cases_ok();
    }
    r
}

/// Merges, each time, the edge whose merge adds the fewest connected
/// components, until no edge is left.
pub fn run_least_losing_components(graph: &NTupleGraph) -> (r: NTupleGraph)
    requires
        graph.wf(),
    ensures
        r.wf(),
        r.num_edges() == 0,
        r.num_nodes() <= graph.num_nodes(),
        forall|i: int| #[trigger] r.node_set().contains(i) ==> case_ok(r.case_at(i)),
        graph.num_edges() > 0 ==> r.num_nodes() < graph.num_nodes(),
        graph.num_edges() == 0 ==> r.node_set() == graph.node_set() && forall|i: int|
            #[trigger] r.node_set().contains(i) ==> r.case_at(i) == graph.case_at(i),
        exists|groups: Map<int, Set<int>>, kept: Set<int>| merged_from(r, *graph, groups, kept),
{
    let r = graph.run(Strategy::LeastLosingComponents);
    proof {
        r.lemma_cases_ok();
    }
    r
}

impl NTupleGraph {
    /// The test cases of the live nodes, by ascending node index.
    pub fn nodes(&self) -> (r: Vec<NTupleSingleInterval>)
        requires
            self.wf(),
        ensures
            forall|j: int| 0 <= j < r@.len() ==> self.is_node_case((#[trigger] r@[j])@),
            forall|i: int| #[trigger] self.node_set().contains(i) ==> crate::test_case_generator::holds_case(r@, self.case_at(i)),
    {
        let idx = node_indices(&self.graph);
        let mut r: Vec<NTupleSingleInterval> = Vec::new();
        let n = idx.len();
        for k in 0..n
            invariant
                n == idx@.len(),
                self.wf(),
                r@.len() == k,
                forall|i: int| 0 <= i < n ==> graph_nodes(self.graph).contains_key(#[trigger] idx@[i] as int),
                forall|j: int| 0 <= j < k ==> (#[trigger] r@[j])@ == self.case_at(idx@[j] as int),
        {
            let w = match node_weight(&self.graph, idx[k]) {
                Some(w) => w,
                None => 0,
            };
            r.push(self.cases[w].duplicate());
        }
        proof {
            assert forall|j: int| 0 <= j < r@.len() implies self.is_node_case((#[trigger] r@[j])@) by {
                assert(self.node_set().contains(idx@[j] as int));
            }
            assert forall|i: int| #[trigger] self.node_set().contains(i) implies crate::test_case_generator::holds_case(r@, self.case_at(i)) by {
                assert(graph_nodes(self.graph).contains_key(i));
                assert(idx@.contains(i as usize));
                let j = choose|j: int| 0 <= j < idx@.len() && idx@[j] == i as usize;
                assert(0 <= i < u32::MAX);
                assert(r@[j]@ == self.case_at(i));
            }
        }
        r
    }
}

} // verus!
