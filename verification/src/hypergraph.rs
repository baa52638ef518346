use vstd::prelude::*;

verus! {

/// A hyperedge maps an ordered list of source nodes (operands, port index =
/// position) to an ordered list of target nodes (results).  Nodes are dense
/// integer indices into the owning hypergraph's node table.
#[derive(Debug)]
pub struct Hyperedge {
    pub sources: Vec<usize>,
    pub targets: Vec<usize>,
}

/// A labeled hypergraph: one label per node, one label per hyperedge, and
/// one adjacency entry per hyperedge.  Labels are plain integer codes; any
/// label alphabet can be used by numbering it.
#[derive(Debug)]
pub struct Hypergraph {
    /// Node labels; node ids are positions in this table.
    pub nodes: Vec<u64>,
    /// Edge labels; edge ids are positions in this table.
    pub edges: Vec<u64>,
    /// Source and target node lists of each hyperedge, one entry per edge.
    pub adjacency: Vec<Hyperedge>,
}

/// A hypergraph together with two ordered interface lists of node ids: the
/// diagram's external inputs (`sources`) and outputs (`targets`).
#[derive(Debug)]
pub struct OpenHypergraph {
    pub sources: Vec<usize>,
    pub targets: Vec<usize>,
    pub hypergraph: Hypergraph,
}

impl Hyperedge {
    /// Every node reference is a valid node id.
    pub open spec fn wf(self, node_count: nat) -> bool {
        &&& forall|p: int| 0 <= p < self.sources@.len() ==> (#[trigger] self.sources@[p]) < node_count
        &&& forall|p: int| 0 <= p < self.targets@.len() ==> (#[trigger] self.targets@[p]) < node_count
    }
}

impl Hypergraph {
    pub open spec fn node_count(self) -> nat {
        self.nodes@.len()
    }

    pub open spec fn edge_count(self) -> nat {
        self.edges@.len()
    }

    /// One adjacency entry per edge, and every node reference in range.
    pub open spec fn wf(self) -> bool {
        &&& self.adjacency@.len() == self.edges@.len()
        &&& forall|e: int| 0 <= e < self.adjacency@.len()
            ==> (#[trigger] self.adjacency@[e]).wf(self.nodes@.len())
    }
}

impl OpenHypergraph {
    pub open spec fn node_count(self) -> nat {
        self.hypergraph.nodes@.len()
    }

    pub open spec fn edge_count(self) -> nat {
        self.hypergraph.edges@.len()
    }

    pub open spec fn wf(self) -> bool {
        &&& self.hypergraph.wf()
        &&& forall|p: int| 0 <= p < self.sources@.len()
            ==> (#[trigger] self.sources@[p]) < self.node_count()
        &&& forall|p: int| 0 <= p < self.targets@.len()
            ==> (#[trigger] self.targets@[p]) < self.node_count()
    }
}

/// The labels that a list of node ids points at, in order.
pub open spec fn label_seq(h: Hypergraph, ids: Seq<usize>) -> Seq<u64> {
    ids.map_values(|v: usize| h.nodes@[v as int])
}

/// The label signature of the input interface.
pub open spec fn source_labels(f: OpenHypergraph) -> Seq<u64> {
    label_seq(f.hypergraph, f.sources@)
}

/// The label signature of the output interface.
pub open spec fn target_labels(f: OpenHypergraph) -> Seq<u64> {
    label_seq(f.hypergraph, f.targets@)
}

/// Node `v` sits at source port `p` of edge `e`.
pub open spec fn is_source_at(h: Hypergraph, v: usize, e: int, p: int) -> bool {
    &&& 0 <= e < h.adjacency@.len()
    &&& 0 <= p < h.adjacency@[e].sources@.len()
    &&& h.adjacency@[e].sources@[p] == v
}

/// Node `v` sits at target port `p` of edge `e`.
pub open spec fn is_target_at(h: Hypergraph, v: usize, e: int, p: int) -> bool {
    &&& 0 <= e < h.adjacency@.len()
    &&& 0 <= p < h.adjacency@[e].targets@.len()
    &&& h.adjacency@[e].targets@[p] == v
}

/// Node `v` is the source of at least one edge.
pub open spec fn is_source_of_some(h: Hypergraph, v: usize) -> bool {
    exists|e: int, p: int| is_source_at(h, v, e, p)
}

/// Node `v` is the target of at least one edge.
pub open spec fn is_target_of_some(h: Hypergraph, v: usize) -> bool {
    exists|e: int, p: int| is_target_at(h, v, e, p)
}

/// Every node occurs at most once as a source and at most once as a target
/// over all edges and ports: each wire has a unique producer and a unique
/// consumer.
pub open spec fn monogamous(h: Hypergraph) -> bool {
    &&& forall|v: usize, e1: int, p1: int, e2: int, p2: int|
        #[trigger] is_source_at(h, v, e1, p1) && #[trigger] is_source_at(h, v, e2, p2)
        ==> e1 == e2 && p1 == p2
    &&& forall|v: usize, e1: int, p1: int, e2: int, p2: int|
        #[trigger] is_target_at(h, v, e1, p1) && #[trigger] is_target_at(h, v, e2, p2)
        ==> e1 == e2 && p1 == p2
}

/// The boundary discipline the search insists on: no input-interface node is
/// consumed as an edge's target, and no output-interface node is produced as
/// an edge's source.
pub open spec fn monogamous_interfaces(f: OpenHypergraph) -> bool {
    &&& forall|p: int| 0 <= p < f.sources@.len()
        ==> !is_target_of_some(f.hypergraph, #[trigger] f.sources@[p])
    &&& forall|p: int| 0 <= p < f.targets@.len()
        ==> !is_source_of_some(f.hypergraph, #[trigger] f.targets@[p])
}

/// Node `x` belongs to the interface of `f`.
pub open spec fn interface_node(f: OpenHypergraph, x: usize) -> bool {
    f.sources@.contains(x) || f.targets@.contains(x)
}

/// Node `x` is adjacent to edge `e` (as a source or a target).
pub open spec fn edge_touches(h: Hypergraph, e: int, x: usize) -> bool {
    (exists|p: int| is_source_at(h, x, e, p)) || (exists|p: int| is_target_at(h, x, e, p))
}

/// `s` contains the interface and is closed under crossing an edge: if `s`
/// holds one node adjacent to an edge, it holds all of them.
pub open spec fn closed_set(f: OpenHypergraph, s: Set<usize>) -> bool {
    &&& forall|x: usize| interface_node(f, x) ==> #[trigger] s.contains(x)
    &&& forall|x: usize, e: int, y: usize|
        s.contains(x) && #[trigger] edge_touches(f.hypergraph, e, x)
            && #[trigger] edge_touches(f.hypergraph, e, y)
        ==> s.contains(y)
}

/// Node `x` is reachable from the interface of `f` by crossing edges: it
/// lies in every closed set.
pub open spec fn in_reach(f: OpenHypergraph, x: usize) -> bool {
    forall|s: Set<usize>| #[trigger] closed_set(f, s) ==> s.contains(x)
}

/// Edge `e` touches at least one node.
pub open spec fn edge_inhabited(h: Hypergraph, e: int) -> bool {
    exists|x: usize| edge_touches(h, e, x)
}

/// Every node is reachable from the interface, and every edge touches at
/// least one node.  A hypergraph disconnected from its own boundary cannot
/// be traversed.
pub open spec fn connected(f: OpenHypergraph) -> bool {
    &&& forall|x: usize| x < f.node_count() ==> #[trigger] in_reach(f, x)
    &&& forall|e: int| 0 <= e < f.edge_count() ==> #[trigger] edge_inhabited(f.hypergraph, e)
}

/// `g` is `f` with node identities renumbered along the bijection `pi` (and
/// edge identities untouched): the label that sat at node `i` sits at node
/// `pi[i]`, and every node reference follows.
pub open spec fn node_renaming(f: OpenHypergraph, g: OpenHypergraph, pi: Seq<usize>) -> bool {
    &&& crate::permutation::is_permutation(pi)
    &&& pi.len() == f.node_count()
    &&& g.node_count() == f.node_count()
    &&& g.hypergraph.edges@ == f.hypergraph.edges@
    &&& forall|i: int| 0 <= i < pi.len()
        ==> g.hypergraph.nodes@[#[trigger] pi[i] as int] == f.hypergraph.nodes@[i]
    &&& g.hypergraph.adjacency@.len() == f.hypergraph.adjacency@.len()
    &&& forall|e: int| 0 <= e < f.hypergraph.adjacency@.len()
        ==> (#[trigger] g.hypergraph.adjacency@[e]).sources@
            == f.hypergraph.adjacency@[e].sources@.map_values(|v: usize| pi[v as int])
    &&& forall|e: int| 0 <= e < f.hypergraph.adjacency@.len()
        ==> (#[trigger] g.hypergraph.adjacency@[e]).targets@
            == f.hypergraph.adjacency@[e].targets@.map_values(|v: usize| pi[v as int])
    &&& g.sources@ == f.sources@.map_values(|v: usize| pi[v as int])
    &&& g.targets@ == f.targets@.map_values(|v: usize| pi[v as int])
}

/// Every well-formed hypergraph is a renumbering of itself along the
/// identity bijection; instantiating a contract stated over renumberings
/// with the identity then speaks about a hypergraph compared with itself.
pub proof fn lemma_identity_renaming(f: OpenHypergraph)
    requires
        f.wf(),
        f.node_count() <= usize::MAX,
    ensures
        node_renaming(f, f, crate::permutation::identity_seq(f.node_count())),
{
    let pi = crate::permutation::identity_seq(f.node_count());
    crate::permutation::lemma_identity_seq_permutation(f.node_count());
    assert(forall|i: int| 0 <= i < pi.len() ==> #[trigger] pi[i] == i as usize);
    assert forall|e: int| 0 <= e < f.hypergraph.adjacency@.len() implies
        (#[trigger] f.hypergraph.adjacency@[e]).sources@
            == f.hypergraph.adjacency@[e].sources@.map_values(|v: usize| pi[v as int]) by {
        let ids = f.hypergraph.adjacency@[e].sources@;
        assert forall|p: int| 0 <= p < ids.len() implies
            ids.map_values(|v: usize| pi[v as int])[p] == #[trigger] ids[p] by {
            assert(ids[p] < f.node_count());
        }
        assert(ids =~= ids.map_values(|v: usize| pi[v as int]));
    }
    assert forall|e: int| 0 <= e < f.hypergraph.adjacency@.len() implies
        (#[trigger] f.hypergraph.adjacency@[e]).targets@
            == f.hypergraph.adjacency@[e].targets@.map_values(|v: usize| pi[v as int]) by {
        let ids = f.hypergraph.adjacency@[e].targets@;
        assert forall|p: int| 0 <= p < ids.len() implies
            ids.map_values(|v: usize| pi[v as int])[p] == #[trigger] ids[p] by {
            assert(ids[p] < f.node_count());
        }
        assert(ids =~= ids.map_values(|v: usize| pi[v as int]));
    }
    assert forall|p: int| 0 <= p < f.sources@.len() implies
        f.sources@.map_values(|v: usize| pi[v as int])[p] == #[trigger] f.sources@[p] by {
        assert(f.sources@[p] < f.node_count());
    }
    assert(f.sources@ =~= f.sources@.map_values(|v: usize| pi[v as int]));
    assert forall|p: int| 0 <= p < f.targets@.len() implies
        f.targets@.map_values(|v: usize| pi[v as int])[p] == #[trigger] f.targets@[p] by {
        assert(f.targets@[p] < f.node_count());
    }
    assert(f.targets@ =~= f.targets@.map_values(|v: usize| pi[v as int]));
}

} // verus!
