use vstd::prelude::*;

use crate::hypergraph::Hyperedge;
use crate::hypergraph::Hypergraph;
use crate::hypergraph::OpenHypergraph;
use crate::hypergraph::node_renaming;
use crate::permutation::Permutation;
use crate::permutation::identity_seq;

verus! {

/// A claimed correspondence between two open hypergraphs: node `i` of `f`
/// corresponds to node `nodes[i]` of `g`, edge `j` of `f` to edge
/// `edges[j]` of `g`.  Both components are genuine bijections, but nothing
/// about construction guarantees the pair respects labels or adjacency;
/// that semantic property is what `validate` decides.
#[derive(Debug)]
pub struct Isomorphism {
    pub nodes: Permutation,
    pub edges: Permutation,
}

/// What it means for the pair `(nodes, edges)` to be a genuine isomorphism
/// from `f` to `g`: labels are preserved, every edge's source and target
/// lists map positionally onto those of its image, and the interface lists
/// map positionally onto `g`'s.
pub open spec fn is_iso(
    nodes: Seq<usize>,
    edges: Seq<usize>,
    f: OpenHypergraph,
    g: OpenHypergraph,
) -> bool {
    &&& forall|i: int| 0 <= i < nodes.len()
        ==> g.hypergraph.nodes@[#[trigger] nodes[i] as int] == f.hypergraph.nodes@[i]
    &&& forall|j: int| 0 <= j < edges.len()
        ==> g.hypergraph.edges@[#[trigger] edges[j] as int] == f.hypergraph.edges@[j]
    &&& forall|j: int| 0 <= j < edges.len()
        ==> g.hypergraph.adjacency@[#[trigger] edges[j] as int].sources@
            == f.hypergraph.adjacency@[j].sources@.map_values(|v: usize| nodes[v as int])
    &&& forall|j: int| 0 <= j < edges.len()
        ==> g.hypergraph.adjacency@[#[trigger] edges[j] as int].targets@
            == f.hypergraph.adjacency@[j].targets@.map_values(|v: usize| nodes[v as int])
    &&& g.sources@ == f.sources@.map_values(|v: usize| nodes[v as int])
    &&& g.targets@ == f.targets@.map_values(|v: usize| nodes[v as int])
}

/// Compare `g_ids` against `f_ids` transported through `perm`, position by
/// position.
fn mapped_ids_equal(perm: &Permutation, f_ids: &Vec<usize>, g_ids: &Vec<usize>) -> (r: bool)
    requires
        forall|p: int| 0 <= p < f_ids@.len() ==> (#[trigger] f_ids@[p]) < perm@.len(),
    ensures
        r == (g_ids@ == f_ids@.map_values(|v: usize| perm@[v as int])),
{
    let ghost mapped = f_ids@.map_values(|v: usize| perm@[v as int]);
    if f_ids.len() != g_ids.len() {
        assert(g_ids@.len() != mapped.len());
        return false;
    }
    let n = f_ids.len();
    let mut p: usize = 0;
    while p < n
        invariant
            n == f_ids@.len(),
            n == g_ids@.len(),
            p <= n,
            mapped == f_ids@.map_values(|v: usize| perm@[v as int]),
            forall|q: int| 0 <= q < f_ids@.len() ==> (#[trigger] f_ids@[q]) < perm@.len(),
            forall|q: int| 0 <= q < p ==> #[trigger] g_ids@[q] == mapped[q],
        decreases n - p,
    {
        if perm.index(f_ids[p]) != g_ids[p] {
            assert(g_ids@[p as int] != mapped[p as int]);
            return false;
        }
        assert(g_ids@[p as int] == mapped[p as int]);
        p += 1;
    }
    proof {
        assert(g_ids@ =~= mapped);
    }
    true
}

/// Transport a list of node ids through `perm`.
fn map_ids(perm: &Permutation, ids: &Vec<usize>) -> (r: Vec<usize>)
    requires
        forall|p: int| 0 <= p < ids@.len() ==> (#[trigger] ids@[p]) < perm@.len(),
    ensures
        r@ == ids@.map_values(|v: usize| perm@[v as int]),
{
    let ghost mapped = ids@.map_values(|v: usize| perm@[v as int]);
    let mut out: Vec<usize> = Vec::new();
    let n = ids.len();
    let mut p: usize = 0;
    while p < n
        invariant
            n == ids@.len(),
            p <= n,
            mapped == ids@.map_values(|v: usize| perm@[v as int]),
            forall|q: int| 0 <= q < ids@.len() ==> (#[trigger] ids@[q]) < perm@.len(),
            out@.len() == p,
            forall|q: int| 0 <= q < p ==> #[trigger] out@[q] == mapped[q],
        decreases n - p,
    {
        out.push(perm.index(ids[p]));
        p += 1;
    }
    proof {
        assert(out@ =~= mapped);
    }
    out
}

impl Isomorphism {
    /// The identity correspondence: node `i` to node `i`, edge `j` to edge
    /// `j`.
    pub fn identity(num_nodes: usize, num_edges: usize) -> (r: Isomorphism)
        ensures
            r.nodes@ == identity_seq(num_nodes as nat),
            r.edges@ == identity_seq(num_edges as nat),
    {
        let r = Isomorphism {
            nodes: Permutation::identity(num_nodes),
            edges: Permutation::identity(num_edges),
        };
        proof {
            assert(r.nodes@ =~= identity_seq(num_nodes as nat));
            assert(r.edges@ =~= identity_seq(num_edges as nat));
        }
        r
    }

    /// Pair two bijections into a claimed correspondence.  No semantic
    /// check happens here: permutations can be combined into malformed
    /// mappings, which `validate` detects rather than construction
    /// forbidding them.
    pub fn new(nodes: Permutation, edges: Permutation) -> (r: Isomorphism)
        ensures
            r.nodes == nodes,
            r.edges == edges,
    {
        Isomorphism { nodes, edges }
    }

    /// Independently decide whether `self` is a genuine isomorphism from
    /// `f` to `g`, without trusting how it was produced.  This is the
    /// correctness oracle of the whole system: it re-derives label,
    /// adjacency and interface preservation directly from the definitions
    /// and is usable on any candidate, hand-built or searched-for.
    pub fn validate(&self, f: &OpenHypergraph, g: &OpenHypergraph) -> (r: bool)
        requires
            f.wf(),
            g.wf(),
            self.nodes@.len() == f.node_count(),
            self.edges@.len() == f.edge_count(),
            g.node_count() == f.node_count(),
            g.edge_count() == f.edge_count(),
        ensures
            r == is_iso(self.nodes@, self.edges@, *f, *g),
    {
        proof {
            use_type_invariant(&self.nodes);
            use_type_invariant(&self.edges);
        }

        // Check node labels preserved
        let n = self.nodes.len();
        let mut i: usize = 0;
        while i < n
            invariant
                n == self.nodes@.len(),
                i <= n,
                crate::permutation::is_permutation(self.nodes@),
                f.wf(),
                n == f.node_count(),
                g.node_count() == f.node_count(),
                forall|k: int| 0 <= k < i
                    ==> g.hypergraph.nodes@[#[trigger] self.nodes@[k] as int]
                        == f.hypergraph.nodes@[k],
            decreases n - i,
        {
            if f.hypergraph.nodes[i] != g.hypergraph.nodes[self.nodes.index(i)] {
                return false;
            }
            i += 1;
        }

        // Check edge labels preserved
        let e = self.edges.len();
        let mut j: usize = 0;
        while j < e
            invariant
                e == self.edges@.len(),
                j <= e,
                crate::permutation::is_permutation(self.edges@),
                f.wf(),
                g.wf(),
                e == f.edge_count(),
                g.edge_count() == f.edge_count(),
                forall|k: int| 0 <= k < j
                    ==> g.hypergraph.edges@[#[trigger] self.edges@[k] as int]
                        == f.hypergraph.edges@[k],
            decreases e - j,
        {
            if f.hypergraph.edges[j] != g.hypergraph.edges[self.edges.index(j)] {
                return false;
            }
            j += 1;
        }

        // Check adjacency structure preserved
        let mut j: usize = 0;
        while j < e
            invariant
                e == self.edges@.len(),
                j <= e,
                crate::permutation::is_permutation(self.edges@),
                crate::permutation::is_permutation(self.nodes@),
                self.nodes@.len() == f.node_count(),
                f.wf(),
                g.wf(),
                e == f.edge_count(),
                g.edge_count() == f.edge_count(),
                forall|k: int| 0 <= k < j
                    ==> g.hypergraph.adjacency@[#[trigger] self.edges@[k] as int].sources@
                        == f.hypergraph.adjacency@[k].sources@.map_values(
                            |v: usize| self.nodes@[v as int]),
                forall|k: int| 0 <= k < j
                    ==> g.hypergraph.adjacency@[#[trigger] self.edges@[k] as int].targets@
                        == f.hypergraph.adjacency@[k].targets@.map_values(
                            |v: usize| self.nodes@[v as int]),
            decreases e - j,
        {
            let g_edge = self.edges.index(j);
            let f_adjacency = &f.hypergraph.adjacency[j];
            let g_adjacency = &g.hypergraph.adjacency[g_edge];

            // Check sources match under node permutation
            if !mapped_ids_equal(&self.nodes, &f_adjacency.sources, &g_adjacency.sources) {
                return false;
            }

            // Check targets match under node permutation
            if !mapped_ids_equal(&self.nodes, &f_adjacency.targets, &g_adjacency.targets) {
                return false;
            }
            j += 1;
        }

        // Check interfaces are compatible under node permutation
        if !mapped_ids_equal(&self.nodes, &f.sources, &g.sources) {
            return false;
        }

        if !mapped_ids_equal(&self.nodes, &f.targets, &g.targets) {
            return false;
        }

        true
    }

    /// Produce the relabeled copy of `f` along `self`: node `i`'s label
    /// moves to position `nodes[i]`, edge `j`'s label to position
    /// `edges[j]`, and every node reference (adjacency and interface)
    /// follows the node bijection.  This never fails; whether the result
    /// means anything is `validate`'s business.
    pub fn apply(&self, f: &OpenHypergraph) -> (r: OpenHypergraph)
        requires
            f.wf(),
            self.nodes@.len() == f.node_count(),
            self.edges@.len() == f.edge_count(),
        ensures
            r.wf(),
            r.node_count() == f.node_count(),
            r.edge_count() == f.edge_count(),
            forall|i: int| 0 <= i < f.node_count()
                ==> r.hypergraph.nodes@[#[trigger] self.nodes@[i] as int]
                    == f.hypergraph.nodes@[i],
            forall|j: int| 0 <= j < f.edge_count()
                ==> r.hypergraph.edges@[#[trigger] self.edges@[j] as int]
                    == f.hypergraph.edges@[j],
            r.hypergraph.adjacency@.len() == f.edge_count(),
            forall|e: int| 0 <= e < f.edge_count()
                ==> (#[trigger] r.hypergraph.adjacency@[e]).sources@
                    == f.hypergraph.adjacency@[e].sources@.map_values(
                        |v: usize| self.nodes@[v as int]),
            forall|e: int| 0 <= e < f.edge_count()
                ==> (#[trigger] r.hypergraph.adjacency@[e]).targets@
                    == f.hypergraph.adjacency@[e].targets@.map_values(
                        |v: usize| self.nodes@[v as int]),
            r.sources@ == f.sources@.map_values(|v: usize| self.nodes@[v as int]),
            r.targets@ == f.targets@.map_values(|v: usize| self.nodes@[v as int]),
            identity_seq(f.edge_count()) == self.edges@ ==> node_renaming(*f, r, self.nodes@),
    {
        proof {
            use_type_invariant(&self.nodes);
            use_type_invariant(&self.edges);
        }

        let n = f.hypergraph.nodes.len();
        let e = f.hypergraph.edges.len();

        // Apply node permutation to node labels
        let mut nodes_out: Vec<u64> = vec![0u64; n];
        let mut i: usize = 0;
        while i < n
            invariant
                n == f.node_count(),
                self.nodes@.len() == n,
                crate::permutation::is_permutation(self.nodes@),
                i <= n,
                nodes_out@.len() == n,
                forall|k: int| 0 <= k < i
                    ==> nodes_out@[#[trigger] self.nodes@[k] as int] == f.hypergraph.nodes@[k],
            decreases n - i,
        {
            let target = self.nodes.index(i);
            nodes_out[target] = f.hypergraph.nodes[i];
            i += 1;
        }

        // Apply edge permutation to edge labels
        let mut edges_out: Vec<u64> = vec![0u64; e];
        let mut j: usize = 0;
        while j < e
            invariant
                e == f.edge_count(),
                self.edges@.len() == e,
                crate::permutation::is_permutation(self.edges@),
                j <= e,
                edges_out@.len() == e,
                forall|k: int| 0 <= k < j
                    ==> edges_out@[#[trigger] self.edges@[k] as int] == f.hypergraph.edges@[k],
            decreases e - j,
        {
            let target = self.edges.index(j);
            edges_out[target] = f.hypergraph.edges[j];
            j += 1;
        }

        // Update adjacency structure with node permutation
        let mut adjacency_out: Vec<Hyperedge> = Vec::new();
        let mut k: usize = 0;
        while k < e
            invariant
                e == f.edge_count(),
                f.wf(),
                self.nodes@.len() == f.node_count(),
                crate::permutation::is_permutation(self.nodes@),
                k <= e,
                adjacency_out@.len() == k,
                forall|q: int| 0 <= q < k
                    ==> (#[trigger] adjacency_out@[q]).sources@
                        == f.hypergraph.adjacency@[q].sources@.map_values(
                            |v: usize| self.nodes@[v as int]),
                forall|q: int| 0 <= q < k
                    ==> (#[trigger] adjacency_out@[q]).targets@
                        == f.hypergraph.adjacency@[q].targets@.map_values(
                            |v: usize| self.nodes@[v as int]),
            decreases e - k,
        {
            let entry = &f.hypergraph.adjacency[k];
            let sources = map_ids(&self.nodes, &entry.sources);
            let targets = map_ids(&self.nodes, &entry.targets);
            adjacency_out.push(Hyperedge { sources, targets });
            k += 1;
        }

        // Update interface indices with node permutation
        let sources_out = map_ids(&self.nodes, &f.sources);
        let targets_out = map_ids(&self.nodes, &f.targets);

        let r = OpenHypergraph {
            sources: sources_out,
            targets: targets_out,
            hypergraph: Hypergraph {
                nodes: nodes_out,
                edges: edges_out,
                adjacency: adjacency_out,
            },
        };
        proof {
            assert forall|q: int| 0 <= q < r.hypergraph.adjacency@.len() implies
                (#[trigger] r.hypergraph.adjacency@[q]).wf(r.hypergraph.nodes@.len()) by {
                let fs = f.hypergraph.adjacency@[q].sources@;
                let ft = f.hypergraph.adjacency@[q].targets@;
                assert(forall|p: int| 0 <= p < fs.len()
                    ==> (#[trigger] r.hypergraph.adjacency@[q].sources@[p])
                        == self.nodes@[fs[p] as int]);
                assert(forall|p: int| 0 <= p < ft.len()
                    ==> (#[trigger] r.hypergraph.adjacency@[q].targets@[p])
                        == self.nodes@[ft[p] as int]);
            }
            if identity_seq(f.edge_count()) == self.edges@ {
                assert forall|q: int| 0 <= q < e implies
                    #[trigger] r.hypergraph.edges@[q] == f.hypergraph.edges@[q] by {
                    assert(self.edges@[q] == identity_seq(f.edge_count())[q]);
                    assert(self.edges@[q] == q as usize);
                    assert(r.hypergraph.edges@[self.edges@[q] as int]
                        == f.hypergraph.edges@[q]);
                }
                assert(r.hypergraph.edges@ =~= f.hypergraph.edges@);
            }
        }
        r
    }
}

impl PartialEq for Isomorphism {
    /// Equality is componentwise equality of the two bijections.
    fn eq(&self, other: &Isomorphism) -> (r: bool) {
        self.nodes == other.nodes && self.edges == other.edges
    }
}

impl Eq for Isomorphism {}

impl vstd::std_specs::cmp::PartialEqSpecImpl for Isomorphism {
    open spec fn obeys_eq_spec() -> bool {
        true
    }

    open spec fn eq_spec(&self, other: &Isomorphism) -> bool {
        self.nodes@ == other.nodes@ && self.edges@ == other.edges@
    }
}

/// The nogood filter is sound: any pair of hypergraphs related by a
/// genuine isomorphism has equal node-label multisets, equal edge-label
/// multisets and equal interface signatures.  Contrapositively, a pair the
/// filter rejects admits no isomorphism at all, searched-for or
/// hand-built.
pub proof fn lemma_iso_passes_nogood(
    nodes: Seq<usize>,
    edges: Seq<usize>,
    f: OpenHypergraph,
    g: OpenHypergraph,
)
    requires
        f.wf(),
        crate::permutation::is_permutation(nodes),
        nodes.len() == f.node_count(),
        g.node_count() == f.node_count(),
        crate::permutation::is_permutation(edges),
        edges.len() == f.edge_count(),
        g.edge_count() == f.edge_count(),
        f.node_count() <= usize::MAX,
        f.edge_count() <= usize::MAX,
        is_iso(nodes, edges, f, g),
    ensures
        crate::nogood::nogood_spec(f, g),
{
    crate::nogood::lemma_permuted_multiset(f.hypergraph.nodes@, g.hypergraph.nodes@, nodes);
    crate::nogood::lemma_permuted_multiset(f.hypergraph.edges@, g.hypergraph.edges@, edges);
    assert forall|p: int| 0 <= p < f.sources@.len() implies
        #[trigger] crate::hypergraph::source_labels(g)[p]
            == crate::hypergraph::source_labels(f)[p] by {
        assert(g.sources@[p] == nodes[f.sources@[p] as int]);
        assert(g.hypergraph.nodes@[nodes[f.sources@[p] as int] as int]
            == f.hypergraph.nodes@[f.sources@[p] as int]);
    }
    assert(crate::hypergraph::source_labels(f) =~= crate::hypergraph::source_labels(g));
    assert forall|p: int| 0 <= p < f.targets@.len() implies
        #[trigger] crate::hypergraph::target_labels(g)[p]
            == crate::hypergraph::target_labels(f)[p] by {
        assert(g.targets@[p] == nodes[f.targets@[p] as int]);
        assert(g.hypergraph.nodes@[nodes[f.targets@[p] as int] as int]
            == f.hypergraph.nodes@[f.targets@[p] as int]);
    }
    assert(crate::hypergraph::target_labels(f) =~= crate::hypergraph::target_labels(g));
}

/// A node renumbering is a genuine isomorphism: relabeling `f` along any
/// bijection `pi` (with edges untouched) yields a hypergraph to which
/// `(pi, identity)` validates as an isomorphism from `f`.  Together with
/// `apply`'s contract, this says a round trip through `apply` always
/// produces a validating witness.
pub proof fn lemma_node_renaming_is_iso(f: OpenHypergraph, g: OpenHypergraph, pi: Seq<usize>)
    requires
        f.wf(),
        node_renaming(f, g, pi),
        f.edge_count() <= usize::MAX,
    ensures
        is_iso(pi, identity_seq(f.edge_count()), f, g),
{
    let ids = identity_seq(f.edge_count());
    assert(forall|j: int| 0 <= j < ids.len() ==> #[trigger] ids[j] == j as usize);
}

} // verus!
