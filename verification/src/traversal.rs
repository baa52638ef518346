use vstd::prelude::*;

use crate::hypergraph::Hypergraph;
use crate::hypergraph::OpenHypergraph;
use crate::hypergraph::closed_set;
use crate::hypergraph::connected;
use crate::hypergraph::edge_inhabited;
use crate::hypergraph::edge_touches;
use crate::hypergraph::in_reach;
use crate::hypergraph::interface_node;
use crate::hypergraph::is_source_at;
use crate::hypergraph::is_source_of_some;
use crate::hypergraph::is_target_at;
use crate::hypergraph::is_target_of_some;
use crate::hypergraph::label_seq;
use crate::hypergraph::monogamous;
use crate::hypergraph::monogamous_interfaces;
use crate::hypergraph::node_renaming;
use crate::isomorphism::Isomorphism;
use crate::nogood::nogood_spec;
use crate::permutation::Permutation;
use crate::permutation::identity_seq;
use crate::permutation::is_permutation;

verus! {

broadcast use vstd::seq_lib::group_to_multiset_ensures;

/// The distinguishable ways a query can fail; every failure is terminal
/// for the query and names its cause.
#[derive(Debug, PartialEq, Eq, Structural)]
pub enum Error {
    /// A nogood check failed
    Nogood,
    NonMonogamous(usize),
    Unsatisfiable(usize),
    // InvalidMatch(node_f, node_g) means node_f was supposed to correspond to node_g but a
    // constraint was not satisfied
    InvalidNodeMatch(usize, usize),
    InvalidEdgeMatch(usize, usize),
    // f node had no corresponding g node.
    UnpairedNode(usize),
    UnpairedEdge(usize),
    InvalidNodePermutation,
    InvalidEdgePermutation,
}

/// A vector of `n` copies of `value`.
fn filled<T: Copy>(value: T, n: usize) -> (r: Vec<T>)
    ensures
        r@.len() == n,
        forall|k: int| 0 <= k < n ==> #[trigger] r@[k] == value,
{
    let mut r: Vec<T> = Vec::new();
    let mut i: usize = 0;
    while i < n
        invariant
            i <= n,
            r@.len() == i,
            forall|k: int| 0 <= k < i ==> #[trigger] r@[k] == value,
        decreases n - i,
    {
        r.push(value);
        i += 1;
    }
    r
}

/// The concatenation of two id lists.
fn concat_ids(a: &Vec<usize>, b: &Vec<usize>) -> (r: Vec<usize>)
    ensures
        r@ == a@ + b@,
{
    let mut r: Vec<usize> = Vec::new();
    let mut i: usize = 0;
    let na = a.len();
    while i < na
        invariant
            na == a@.len(),
            i <= na,
            r@ == a@.take(i as int),
        decreases na - i,
    {
        r.push(a[i]);
        assert(r@ =~= a@.take(i + 1));
        i += 1;
    }
    assert(r@ =~= a@);
    let mut j: usize = 0;
    let nb = b.len();
    while j < nb
        invariant
            nb == b@.len(),
            j <= nb,
            r@ == a@ + b@.take(j as int),
        decreases nb - j,
    {
        r.push(b[j]);
        assert(r@ =~= a@ + b@.take(j + 1));
        j += 1;
    }
    assert(r@ =~= a@ + b@);
    r
}

/// Node `v` occurs as a source strictly before position (`e_bound`, `p_bound`)
/// in the edge-major, port-minor build order.
spec fn source_in_prefix(h: Hypergraph, v: usize, e_bound: int, p_bound: int) -> bool {
    exists|e: int, p: int|
        (#[trigger] is_source_at(h, v, e, p)) && (e < e_bound || (e == e_bound && p < p_bound))
}

/// Node `v` occurs as a target strictly before position (`e_bound`, `p_bound`).
spec fn target_in_prefix(h: Hypergraph, v: usize, e_bound: int, p_bound: int) -> bool {
    exists|e: int, p: int|
        (#[trigger] is_target_at(h, v, e, p)) && (e < e_bound || (e == e_bound && p < p_bound))
}

/// The adjacency index of one hypergraph: for each node, at which edge and
/// port it occurs as a source, and likewise as a target.  Built in one
/// sweep with overwrite-on-duplicate semantics; a duplicate can only exist
/// for non-monogamous inputs, which the search rejects separately.
pub struct Index {
    of_source: Vec<Option<(usize, usize)>>,
    of_target: Vec<Option<(usize, usize)>>,
}

/// What the index promises: an entry exists exactly for nodes that occur in
/// the respective role, and each entry points at a true occurrence.
pub closed spec fn index_wf(idx: Index, h: Hypergraph) -> bool {
    &&& idx.of_source@.len() == h.nodes@.len()
    &&& idx.of_target@.len() == h.nodes@.len()
    &&& forall|v: int| 0 <= v < h.nodes@.len()
        ==> ((#[trigger] idx.of_source@[v]) is Some <==> is_source_of_some(h, v as usize))
    &&& forall|v: int| 0 <= v < h.nodes@.len()
        ==> ((#[trigger] idx.of_target@[v]) is Some <==> is_target_of_some(h, v as usize))
    &&& forall|v: int| 0 <= v < h.nodes@.len()
        ==> ((#[trigger] idx.of_source@[v]) matches Some((e, p))
            ==> is_source_at(h, v as usize, e as int, p as int))
    &&& forall|v: int| 0 <= v < h.nodes@.len()
        ==> ((#[trigger] idx.of_target@[v]) matches Some((e, p))
            ==> is_target_at(h, v as usize, e as int, p as int))
}

impl Index {
    /// One pass over all hyperedges: record, for each node, the edge and
    /// port at which it occurs as a source, and likewise as a target.
    /// Later occurrences overwrite earlier ones; monogamicity is not
    /// checked here.
    pub(crate) fn new(h: &Hypergraph) -> (r: Index)
        requires
            h.wf(),
        ensures
            index_wf(r, *h),
    {
        let n = h.nodes.len();
        let ne = h.adjacency.len();

        let mut of_source: Vec<Option<(usize, usize)>> = filled(None, n);
        let mut e: usize = 0;
        while e < ne
            invariant
                h.wf(),
                n == h.nodes@.len(),
                ne == h.adjacency@.len(),
                e <= ne,
                of_source@.len() == n,
                forall|v: int| 0 <= v < n
                    ==> ((#[trigger] of_source@[v]) is Some
                        <==> source_in_prefix(*h, v as usize, e as int, 0)),
                forall|v: int| 0 <= v < n
                    ==> ((#[trigger] of_source@[v]) matches Some((e1, p1))
                        ==> is_source_at(*h, v as usize, e1 as int, p1 as int)),
            decreases ne - e,
        {
            let ports = h.adjacency[e].sources.len();
            let mut p: usize = 0;
            while p < ports
                invariant
                    h.wf(),
                    n == h.nodes@.len(),
                    ne == h.adjacency@.len(),
                    e < ne,
                    ports == h.adjacency@[e as int].sources@.len(),
                    p <= ports,
                    of_source@.len() == n,
                    forall|v: int| 0 <= v < n
                        ==> ((#[trigger] of_source@[v]) is Some
                            <==> source_in_prefix(*h, v as usize, e as int, p as int)),
                    forall|v: int| 0 <= v < n
                        ==> ((#[trigger] of_source@[v]) matches Some((e1, p1))
                            ==> is_source_at(*h, v as usize, e1 as int, p1 as int)),
                decreases ports - p,
            {
                let v = h.adjacency[e].sources[p];
                assert(is_source_at(*h, v, e as int, p as int));
                of_source[v] = Some((e, p));
                proof {
                    assert forall|w: int| 0 <= w < n implies
                        ((#[trigger] of_source@[w]) is Some
                            <==> source_in_prefix(*h, w as usize, e as int, p + 1)) by {
                        if w == v {
                            assert(source_in_prefix(*h, w as usize, e as int, p + 1));
                        } else {
                            if source_in_prefix(*h, w as usize, e as int, p + 1)
                                && !source_in_prefix(*h, w as usize, e as int, p as int) {
                                let (e1, p1) = choose|e1: int, p1: int|
                                    (#[trigger] is_source_at(*h, w as usize, e1, p1))
                                        && (e1 < e || (e1 == e && p1 < p + 1));
                                assert(e1 == e && p1 == p);
                                assert(h.adjacency@[e as int].sources@[p as int] == w as usize);
                            }
                        }
                    }
                }
                p += 1;
            }
            proof {
                assert forall|w: int| 0 <= w < n implies
                    ((#[trigger] source_in_prefix(*h, w as usize, e as int, ports as int))
                        <==> source_in_prefix(*h, w as usize, e + 1, 0)) by {
                    if source_in_prefix(*h, w as usize, e + 1, 0)
                        && !source_in_prefix(*h, w as usize, e as int, ports as int) {
                        let (e1, p1) = choose|e1: int, p1: int|
                            (#[trigger] is_source_at(*h, w as usize, e1, p1))
                                && (e1 < e + 1 || (e1 == e + 1 && p1 < 0));
                        assert(e1 == e);
                        assert(p1 < ports);
                    }
                }
            }
            e += 1;
        }

        let mut of_target: Vec<Option<(usize, usize)>> = filled(None, n);
        let mut e: usize = 0;
        while e < ne
            invariant
                h.wf(),
                n == h.nodes@.len(),
                ne == h.adjacency@.len(),
                e <= ne,
                of_target@.len() == n,
                forall|v: int| 0 <= v < n
                    ==> ((#[trigger] of_target@[v]) is Some
                        <==> target_in_prefix(*h, v as usize, e as int, 0)),
                forall|v: int| 0 <= v < n
                    ==> ((#[trigger] of_target@[v]) matches Some((e1, p1))
                        ==> is_target_at(*h, v as usize, e1 as int, p1 as int)),
            decreases ne - e,
        {
            let ports = h.adjacency[e].targets.len();
            let mut p: usize = 0;
            while p < ports
                invariant
                    h.wf(),
                    n == h.nodes@.len(),
                    ne == h.adjacency@.len(),
                    e < ne,
                    ports == h.adjacency@[e as int].targets@.len(),
                    p <= ports,
                    of_target@.len() == n,
                    forall|v: int| 0 <= v < n
                        ==> ((#[trigger] of_target@[v]) is Some
                            <==> target_in_prefix(*h, v as usize, e as int, p as int)),
                    forall|v: int| 0 <= v < n
                        ==> ((#[trigger] of_target@[v]) matches Some((e1, p1))
                            ==> is_target_at(*h, v as usize, e1 as int, p1 as int)),
                decreases ports - p,
            {
                let v = h.adjacency[e].targets[p];
                assert(is_target_at(*h, v, e as int, p as int));
                of_target[v] = Some((e, p));
                proof {
                    assert forall|w: int| 0 <= w < n implies
                        ((#[trigger] of_target@[w]) is Some
                            <==> target_in_prefix(*h, w as usize, e as int, p + 1)) by {
                        if w == v {
                            assert(target_in_prefix(*h, w as usize, e as int, p + 1));
                        } else {
                            if target_in_prefix(*h, w as usize, e as int, p + 1)
                                && !target_in_prefix(*h, w as usize, e as int, p as int) {
                                let (e1, p1) = choose|e1: int, p1: int|
                                    (#[trigger] is_target_at(*h, w as usize, e1, p1))
                                        && (e1 < e || (e1 == e && p1 < p + 1));
                                assert(e1 == e && p1 == p);
                                assert(h.adjacency@[e as int].targets@[p as int] == w as usize);
                            }
                        }
                    }
                }
                p += 1;
            }
            proof {
                assert forall|w: int| 0 <= w < n implies
                    ((#[trigger] target_in_prefix(*h, w as usize, e as int, ports as int))
                        <==> target_in_prefix(*h, w as usize, e + 1, 0)) by {
                    if target_in_prefix(*h, w as usize, e + 1, 0)
                        && !target_in_prefix(*h, w as usize, e as int, ports as int) {
                        let (e1, p1) = choose|e1: int, p1: int|
                            (#[trigger] is_target_at(*h, w as usize, e1, p1))
                                && (e1 < e + 1 || (e1 == e + 1 && p1 < 0));
                        assert(e1 == e);
                        assert(p1 < ports);
                    }
                }
            }
            e += 1;
        }

        proof {
            assert forall|v: int| 0 <= v < n implies
                ((#[trigger] source_in_prefix(*h, v as usize, ne as int, 0))
                    <==> is_source_of_some(*h, v as usize)) by {
                if is_source_of_some(*h, v as usize) {
                    let (e1, p1) = choose|e1: int, p1: int|
                        #[trigger] is_source_at(*h, v as usize, e1, p1);
                    assert(is_source_at(*h, v as usize, e1, p1) && e1 < ne);
                }
            }
            assert forall|v: int| 0 <= v < n implies
                ((#[trigger] target_in_prefix(*h, v as usize, ne as int, 0))
                    <==> is_target_of_some(*h, v as usize)) by {
                if is_target_of_some(*h, v as usize) {
                    let (e1, p1) = choose|e1: int, p1: int|
                        #[trigger] is_target_at(*h, v as usize, e1, p1);
                    assert(is_target_at(*h, v as usize, e1, p1) && e1 < ne);
                }
            }
        }

        Index { of_source, of_target }
    }
}

/// Node `v` breaks the boundary discipline: it is an input-interface node
/// consumed by some edge, or an output-interface node produced by some
/// edge.
pub open spec fn interface_violation(f: OpenHypergraph, v: usize) -> bool {
    ||| (f.sources@.contains(v) && is_target_of_some(f.hypergraph, v))
    ||| (f.targets@.contains(v) && is_source_of_some(f.hypergraph, v))
}

/// Indexes for a pair of open hypergraphs, ready for one traversal query.
pub struct SearchState {
    f_index: Index,
    g_index: Index,
}

/// Both indices of the state describe the pair of hypergraphs the query is
/// about.
pub closed spec fn state_wf(st: SearchState, f: OpenHypergraph, g: OpenHypergraph) -> bool {
    &&& index_wf(st.f_index, f.hypergraph)
    &&& index_wf(st.g_index, g.hypergraph)
}

impl SearchState {
    /// Build both adjacency indices and check the boundary half of the
    /// monogamicity precondition: no source-interface node of `f` may be
    /// some edge's target, and no target-interface node may be some edge's
    /// source.
    pub fn new(f: &OpenHypergraph, g: &OpenHypergraph) -> (r: Result<SearchState, Error>)
        requires
            f.wf(),
            g.wf(),
        ensures
            r is Ok <==> monogamous_interfaces(*f),
            r matches Ok(st) ==> state_wf(st, *f, *g),
            r matches Err(err) ==> (err matches Error::NonMonogamous(v)
                && interface_violation(*f, v)),
    {
        let f_index = Index::new(&f.hypergraph);
        let g_index = Index::new(&g.hypergraph);

        // Verify that source/target nodes are not targets/sources, respectively
        // (monogamicity check!)
        let ns = f.sources.len();
        let mut p: usize = 0;
        while p < ns
            invariant
                f.wf(),
                index_wf(f_index, f.hypergraph),
                ns == f.sources@.len(),
                p <= ns,
                forall|q: int| 0 <= q < p
                    ==> !is_target_of_some(f.hypergraph, #[trigger] f.sources@[q]),
            decreases ns - p,
        {
            let source_node = f.sources[p];
            if f_index.of_target[source_node].is_some() {
                assert(f.sources@.contains(source_node));
                return Err(Error::NonMonogamous(source_node));
            }
            p += 1;
        }

        let nt = f.targets.len();
        let mut p: usize = 0;
        while p < nt
            invariant
                f.wf(),
                index_wf(f_index, f.hypergraph),
                nt == f.targets@.len(),
                p <= nt,
                forall|q: int| 0 <= q < f.sources@.len()
                    ==> !is_target_of_some(f.hypergraph, #[trigger] f.sources@[q]),
                forall|q: int| 0 <= q < p
                    ==> !is_source_of_some(f.hypergraph, #[trigger] f.targets@[q]),
            decreases nt - p,
        {
            let target_node = f.targets[p];
            if f_index.of_source[target_node].is_some() {
                assert(f.targets@.contains(target_node));
                return Err(Error::NonMonogamous(target_node));
            }
            p += 1;
        }

        Ok(SearchState { f_index, g_index })
    }

    /// Ensure that two edges in f and g have the exact same:
    ///  - label
    ///  - source *types*
    ///  - target *types*
    fn ensure_same_type(&self, f: &OpenHypergraph, g: &OpenHypergraph, f_edge_id: usize,
        g_edge_id: usize) -> (r: Result<(), Error>)
        requires
            f.wf(),
            g.wf(),
            f_edge_id < f.edge_count(),
            g_edge_id < g.edge_count(),
        ensures
            r is Ok <==> edge_compatible(*f, *g, f_edge_id as int, g_edge_id as int),
            r matches Err(err) ==> err == Error::InvalidEdgeMatch(f_edge_id, g_edge_id),
    {
        if f.hypergraph.edges[f_edge_id] != g.hypergraph.edges[g_edge_id] {
            return Err(Error::InvalidEdgeMatch(f_edge_id, g_edge_id));
        }

        let f_adjacency = &f.hypergraph.adjacency[f_edge_id];
        let g_adjacency = &g.hypergraph.adjacency[g_edge_id];

        if !self.same_labels(f, &f_adjacency.sources, g, &g_adjacency.sources)
            || !self.same_labels(f, &f_adjacency.targets, g, &g_adjacency.targets) {
            return Err(Error::InvalidEdgeMatch(f_edge_id, g_edge_id));
        }

        Ok(())
    }

    /// Compare the label sequences that two node-id lists spell out.
    fn same_labels(&self, f: &OpenHypergraph, f_nodes: &Vec<usize>, g: &OpenHypergraph,
        g_nodes: &Vec<usize>) -> (r: bool)
        requires
            forall|p: int| 0 <= p < f_nodes@.len()
                ==> (#[trigger] f_nodes@[p]) < f.node_count(),
            forall|p: int| 0 <= p < g_nodes@.len()
                ==> (#[trigger] g_nodes@[p]) < g.node_count(),
        ensures
            r == (label_seq(f.hypergraph, f_nodes@) == label_seq(g.hypergraph, g_nodes@)),
    {
        crate::nogood::labels_equal(&f.hypergraph, f_nodes, &g.hypergraph, g_nodes)
    }

    /// The concatenated (sources then targets) node lists of one edge in
    /// each hypergraph.
    fn neighbourhoods(&self, f: &OpenHypergraph, g: &OpenHypergraph, f_edge_id: usize,
        g_edge_id: usize) -> (r: (Vec<usize>, Vec<usize>))
        requires
            f.wf(),
            g.wf(),
            f_edge_id < f.edge_count(),
            g_edge_id < g.edge_count(),
        ensures
            r.0@ == nbhd(f.hypergraph, f_edge_id as int),
            r.1@ == nbhd(g.hypergraph, g_edge_id as int),
    {
        let r0 = concat_ids(&f.hypergraph.adjacency[f_edge_id].sources,
            &f.hypergraph.adjacency[f_edge_id].targets);
        let r1 = concat_ids(&g.hypergraph.adjacency[g_edge_id].sources,
            &g.hypergraph.adjacency[g_edge_id].targets);
        (r0, r1)
    }

    /// Pair the two edges: check type compatibility, then mark every not
    /// yet visited node of `f_edge_id`'s neighbourhood as visited and push
    /// it onto the worklist, paired positionally with its counterpart in
    /// `g_edge_id`'s neighbourhood.
    fn identify_edges(&self, f: &OpenHypergraph, g: &OpenHypergraph,
        stack: &mut Vec<(usize, usize)>, visited: &mut Vec<bool>, f_edge_id: usize,
        g_edge_id: usize) -> (r: Result<(), Error>)
        requires
            f.wf(),
            g.wf(),
            f_edge_id < f.edge_count(),
            g_edge_id < g.edge_count(),
            old(visited)@.len() == f.node_count(),
        ensures
            final(visited)@.len() == f.node_count(),
            r matches Err(err) ==> err == Error::InvalidEdgeMatch(f_edge_id, g_edge_id)
                && !edge_compatible(*f, *g, f_edge_id as int, g_edge_id as int)
                && final(stack)@ == old(stack)@
                && final(visited)@ == old(visited)@,
            r is Ok ==> edge_compatible(*f, *g, f_edge_id as int, g_edge_id as int),
            forall|k: int| 0 <= k < f.node_count() && old(visited)@[k]
                ==> #[trigger] final(visited)@[k],
            r is Ok ==> forall|k: int| 0 <= k < f.node_count() && #[trigger] final(visited)@[k]
                ==> (old(visited)@[k]
                    || edge_touches(f.hypergraph, f_edge_id as int, k as usize)),
            r is Ok ==> forall|k: usize| k < f.node_count()
                    && #[trigger] edge_touches(f.hypergraph, f_edge_id as int, k)
                ==> final(visited)@[k as int],
            r is Ok ==> final(stack)@.len() >= old(stack)@.len()
                && final(stack)@.take(old(stack)@.len() as int) == old(stack)@,
            r is Ok ==> count_false(old(visited)@) - count_false(final(visited)@)
                == final(stack)@.len() - old(stack)@.len(),
            r is Ok ==> forall|idx: int|
                old(stack)@.len() <= idx < final(stack)@.len()
                ==> pushed_pair(nbhd(f.hypergraph, f_edge_id as int),
                    nbhd(g.hypergraph, g_edge_id as int), old(visited)@,
                    #[trigger] final(stack)@[idx]),
            r is Ok ==> forall|k: int| 0 <= k < f.node_count() && #[trigger] final(visited)@[k]
                    && !old(visited)@[k]
                ==> in_stack(final(stack)@, k as usize),
    {
        // Verify f/g have same type (including edge label)
        match self.ensure_same_type(f, g, f_edge_id, g_edge_id) {
            Err(err) => {
                return Err(err);
            },
            Ok(()) => {},
        }

        // Get neighbourhoods of both edges
        let (f_nb, g_nb) = self.neighbourhoods(f, g, f_edge_id, g_edge_id);
        let ghost fnb = nbhd(f.hypergraph, f_edge_id as int);
        let ghost gnb = nbhd(g.hypergraph, g_edge_id as int);
        proof {
            // type compatibility forces the two neighbourhoods to have the
            // same length
            assert(label_seq(f.hypergraph,
                f.hypergraph.adjacency@[f_edge_id as int].sources@).len()
                == label_seq(g.hypergraph,
                    g.hypergraph.adjacency@[g_edge_id as int].sources@).len());
            assert(label_seq(f.hypergraph,
                f.hypergraph.adjacency@[f_edge_id as int].targets@).len()
                == label_seq(g.hypergraph,
                    g.hypergraph.adjacency@[g_edge_id as int].targets@).len());
            assert(fnb.len() == gnb.len());
        }

        let ghost old_stack = stack@;
        let ghost old_visited = visited@;
        let m = f_nb.len();

        // Add all pairs to 'stack' and 'visited'
        let mut q: usize = 0;
        while q < m
            invariant
                f.wf(),
                g.wf(),
                f_edge_id < f.edge_count(),
                g_edge_id < g.edge_count(),
                m == fnb.len(),
                f_nb@ == fnb,
                g_nb@ == gnb,
                fnb == nbhd(f.hypergraph, f_edge_id as int),
                gnb == nbhd(g.hypergraph, g_edge_id as int),
                gnb.len() == m,
                q <= m,
                visited@.len() == f.node_count(),
                old_visited.len() == f.node_count(),
                forall|k: int| 0 <= k < f.node_count() && old_visited[k]
                    ==> #[trigger] visited@[k],
                forall|k: int| 0 <= k < f.node_count() && #[trigger] visited@[k]
                    ==> (old_visited[k] || occurs_before(fnb, q as int, k as usize)),
                forall|j: int| 0 <= j < q ==> visited@[#[trigger] fnb[j] as int],
                stack@.len() >= old_stack.len(),
                stack@.take(old_stack.len() as int) == old_stack,
                count_false(old_visited) - count_false(visited@)
                    == stack@.len() - old_stack.len(),
                forall|idx: int| old_stack.len() <= idx < stack@.len()
                    ==> pushed_pair(fnb, gnb, old_visited, #[trigger] stack@[idx]),
                forall|k: int| 0 <= k < f.node_count() && #[trigger] visited@[k]
                    && !old_visited[k] ==> in_stack(stack@, k as usize),
            decreases m - q,
        {
            proof {
                assert(is_source_at(f.hypergraph, fnb[q as int], f_edge_id as int, q as int)
                    || is_target_at(f.hypergraph, fnb[q as int], f_edge_id as int,
                        q - f.hypergraph.adjacency@[f_edge_id as int].sources@.len()));
            }
            assert(fnb[q as int] < f.node_count());
            let ghost pre = visited@;
            let ghost pre_stack = stack@;
            let x = f_nb[q];
            let y = g_nb[q];
            if !visited[x] {
                stack.push((x, y));
                proof {
                    lemma_count_false_update(visited@, x as int);
                }
                visited[x] = true;
                proof {
                    assert(fnb[q as int] == x);
                    assert(visited@ == pre.update(x as int, true));
                    assert(stack@ == pre_stack.push((x, y)));
                    assert(!old_visited[x as int]);
                    assert forall|k: int| 0 <= k < f.node_count() && #[trigger] visited@[k]
                        implies (old_visited[k] || occurs_before(fnb, q + 1, k as usize)) by {
                        if k == x {
                            assert(occurs_before(fnb, q + 1, x));
                        } else {
                            assert(pre[k]);
                            if !old_visited[k] {
                                assert(occurs_before(fnb, q as int, k as usize));
                                let j = choose|j: int| 0 <= j < q
                                    && #[trigger] fnb[j] == k as usize;
                                assert(0 <= j < q + 1 && fnb[j] == k as usize);
                                assert(occurs_before(fnb, q + 1, k as usize));
                            }
                        }
                    }
                    assert(stack@.take(old_stack.len() as int) =~= old_stack);
                    assert forall|idx: int| old_stack.len() <= idx < stack@.len() implies
                        pushed_pair(fnb, gnb, old_visited, #[trigger] stack@[idx]) by {
                        if idx < pre_stack.len() {
                            assert(stack@[idx] == pre_stack[idx]);
                            assert(pushed_pair(fnb, gnb, old_visited, pre_stack[idx]));
                        } else {
                            assert(stack@[idx] == (x, y));
                            assert(fnb[q as int] == x && gnb[q as int] == y
                                && !old_visited[x as int]);
                            assert(pushed_pair(fnb, gnb, old_visited, (x, y)));
                        }
                    }
                    assert forall|k: int| 0 <= k < f.node_count() && #[trigger] visited@[k]
                        && !old_visited[k] implies in_stack(stack@, k as usize) by {
                        if k == x {
                            assert((stack@[stack@.len() - 1]).0 == x);
                            assert(in_stack(stack@, x));
                        } else {
                            assert(pre[k]);
                            assert(in_stack(pre_stack, k as usize));
                            assert(stack@.take(pre_stack.len() as int) =~= pre_stack);
                            lemma_in_stack_extend(pre_stack, stack@, k as usize);
                        }
                    }
                }
            } else {
                proof {
                    assert forall|k: int| 0 <= k < f.node_count() && #[trigger] visited@[k]
                        implies (old_visited[k] || occurs_before(fnb, q + 1, k as usize)) by {
                        if !old_visited[k] {
                            assert(occurs_before(fnb, q as int, k as usize));
                            let j = choose|j: int| 0 <= j < q
                                && #[trigger] fnb[j] == k as usize;
                            assert(0 <= j < q + 1 && fnb[j] == k as usize);
                            assert(occurs_before(fnb, q + 1, k as usize));
                        }
                    }
                }
            }
            q += 1;
        }

        proof {
            // every node that touches the edge sits somewhere in the
            // neighbourhood list, and conversely
            assert forall|k: usize| k < f.node_count()
                    && #[trigger] edge_touches(f.hypergraph, f_edge_id as int, k)
                implies visited@[k as int] by {
                let sl = f.hypergraph.adjacency@[f_edge_id as int].sources@.len() as int;
                if exists|p: int| #[trigger] is_source_at(f.hypergraph, k,
                    f_edge_id as int, p) {
                    let p = choose|p: int| #[trigger] is_source_at(f.hypergraph,
                        k, f_edge_id as int, p);
                    assert(fnb[p] == k);
                    assert(visited@[fnb[p] as int]);
                } else {
                    let p = choose|p: int| #[trigger] is_target_at(f.hypergraph,
                        k, f_edge_id as int, p);
                    assert(fnb[p + sl] == k);
                    assert(visited@[fnb[p + sl] as int]);
                }
            }
            assert forall|k: int| 0 <= k < f.node_count() && #[trigger] visited@[k]
                implies (old_visited[k]
                    || edge_touches(f.hypergraph, f_edge_id as int, k as usize)) by {
                if !old_visited[k] {
                    assert(occurs_before(fnb, m as int, k as usize));
                    let j = choose|j: int| 0 <= j < m && #[trigger] fnb[j] == k as usize;
                    let sl = f.hypergraph.adjacency@[f_edge_id as int].sources@.len() as int;
                    if j < sl {
                        assert(is_source_at(f.hypergraph, k as usize, f_edge_id as int, j));
                    } else {
                        assert(is_target_at(f.hypergraph, k as usize, f_edge_id as int,
                            j - sl));
                    }
                }
            }
        }

        Ok(())
    }

    /// The worklist traversal: pop a proposed node pair, check labels,
    /// force the edges the `f` node is a source or target of into
    /// correspondence, and record the assignment, until the worklist runs
    /// dry; then read the completed mappings off.  Monogamicity means each
    /// node carries at most one obligation per direction, so there is
    /// never a choice point and no backtracking happens.
    pub fn find_isomorphism(&self, f: &OpenHypergraph, g: &OpenHypergraph) -> (r: Result<
        (Vec<usize>, Vec<usize>),
        Error,
    >)
        requires
            f.wf(),
            g.wf(),
            state_wf(*self, *f, *g),
            monogamous_interfaces(*f),
        ensures
            (r matches Err(err) && err == Error::Nogood) <==> !nogood_spec(*f, *g),
            r matches Err(err) ==> (err matches Error::Nogood
                || err matches Error::InvalidNodeMatch(_, _)
                || err matches Error::InvalidEdgeMatch(_, _)
                || err matches Error::UnpairedNode(_)
                || err matches Error::UnpairedEdge(_)),
            r matches Err(err) ==> (err matches Error::InvalidNodeMatch(a, b)
                ==> a < f.node_count() && b < g.node_count()
                    && !nodes_compatible(*f, *g, a, b)),
            r matches Err(err) ==> (err matches Error::InvalidEdgeMatch(a, b)
                ==> a < f.edge_count() && b < g.edge_count()
                    && !edge_compatible(*f, *g, a as int, b as int)),
            monogamous(f.hypergraph) ==> (r matches Err(err)
                ==> (err matches Error::UnpairedNode(i)
                    ==> i < f.node_count() && !in_reach(*f, i))),
            monogamous(f.hypergraph) ==> (r matches Err(err)
                ==> (err matches Error::UnpairedEdge(j)
                    ==> j < f.edge_count() && !(exists|x: usize|
                        #[trigger] edge_touches(f.hypergraph, j as int, x)
                            && in_reach(*f, x)))),
            r matches Ok(maps) ==> ({
                &&& nogood_spec(*f, *g)
                &&& maps.0@.len() == f.node_count()
                &&& maps.1@.len() == f.edge_count()
                &&& g.node_count() == f.node_count()
                &&& g.edge_count() == f.edge_count()
                &&& forall|i: int| 0 <= i < f.node_count()
                    ==> (#[trigger] maps.0@[i]) < g.node_count()
                        && g.hypergraph.nodes@[maps.0@[i] as int] == f.hypergraph.nodes@[i]
                &&& forall|j: int| 0 <= j < f.edge_count()
                    ==> (#[trigger] maps.1@[j]) < g.edge_count()
                        && edge_compatible(*f, *g, j, maps.1@[j] as int)
            }),
            forall|pi: Seq<usize>| #[trigger] renaming_ok(*f, *g, pi) && connected(*f)
                ==> (r matches Ok(maps) && maps.0@ == pi
                    && maps.1@ == identity_seq(f.edge_count())),
    {
        let n = f.hypergraph.nodes.len();
        let e = f.hypergraph.edges.len();

        // Run fast nogood checks
        if crate::nogood::nogood(f, g).is_none() {
            proof {
                assert forall|pi: Seq<usize>| renaming_ok(*f, *g, pi) && connected(*f)
                    implies false by {
                    crate::nogood::lemma_renaming_nogood(*f, *g, pi);
                }
            }
            return Err(Error::Nogood);
        }

        proof {
            assert(f.hypergraph.nodes@.to_multiset().len()
                == g.hypergraph.nodes@.to_multiset().len());
            assert(f.hypergraph.edges@.to_multiset().len()
                == g.hypergraph.edges@.to_multiset().len());
            assert(g.node_count() == n);
            assert(g.edge_count() == e);
            assert(crate::hypergraph::source_labels(*f).len()
                == crate::hypergraph::source_labels(*g).len());
            assert(crate::hypergraph::target_labels(*f).len()
                == crate::hypergraph::target_labels(*g).len());
        }

        // The set of visited nodes, serving double duty as the assigned
        // mapping to g.  Note that we never visit a node twice.
        let mut node_mapping: Vec<Option<usize>> = filled(None, n);
        let mut edge_mapping: Vec<Option<usize>> = filled(None, e);

        // "stack" is the worklist of unvisited f nodes, each paired with a
        // single g node, initialized to the *interfaces* of both open
        // hypergraphs.
        let mut stack: Vec<(usize, usize)> = Vec::new();
        let ns = f.sources.len();
        let mut p: usize = 0;
        while p < ns
            invariant
                f.wf(),
                g.wf(),
                ns == f.sources@.len(),
                g.sources@.len() == ns,
                p <= ns,
                stack@.len() == p,
                forall|idx: int| 0 <= idx < p
                    ==> #[trigger] stack@[idx] == (f.sources@[idx], g.sources@[idx]),
            decreases ns - p,
        {
            stack.push((f.sources[p], g.sources[p]));
            p += 1;
        }
        let nt = f.targets.len();
        let mut p: usize = 0;
        while p < nt
            invariant
                f.wf(),
                g.wf(),
                ns == f.sources@.len(),
                g.sources@.len() == ns,
                nt == f.targets@.len(),
                g.targets@.len() == nt,
                p <= nt,
                stack@.len() == ns + p,
                forall|idx: int| 0 <= idx < ns
                    ==> #[trigger] stack@[idx] == (f.sources@[idx], g.sources@[idx]),
                forall|idx: int| ns <= idx < ns + p
                    ==> #[trigger] stack@[idx] == (f.targets@[idx - ns], g.targets@[idx - ns]),
            decreases nt - p,
        {
            stack.push((f.targets[p], g.targets[p]));
            p += 1;
        }

        // which nodes of f have been visited (either on the stack, or
        // assigned); initialize to the interfaces since they are already
        // on the stack
        let mut visited: Vec<bool> = filled(false, n);
        let mut p: usize = 0;
        while p < ns
            invariant
                f.wf(),
                n == f.node_count(),
                ns == f.sources@.len(),
                p <= ns,
                visited@.len() == n,
                stack@.len() == ns + nt,
                forall|idx: int| 0 <= idx < ns
                    ==> #[trigger] stack@[idx] == (f.sources@[idx], g.sources@[idx]),
                forall|k: int| 0 <= k < n && #[trigger] visited@[k]
                    ==> in_stack(stack@, k as usize),
                forall|q2: int| 0 <= q2 < p ==> visited@[(#[trigger] f.sources@[q2]) as int],
            decreases ns - p,
        {
            let ghost pre = visited@;
            let source_node = f.sources[p];
            visited[source_node] = true;
            proof {
                assert((stack@[p as int]).0 == source_node);
                assert(in_stack(stack@, source_node));
                assert forall|k: int| 0 <= k < n && #[trigger] visited@[k] implies
                    in_stack(stack@, k as usize) by {
                    if k != source_node {
                        assert(visited@[k] == pre[k]);
                    }
                }
            }
            p += 1;
        }
        let mut p: usize = 0;
        while p < nt
            invariant
                f.wf(),
                n == f.node_count(),
                ns == f.sources@.len(),
                nt == f.targets@.len(),
                p <= nt,
                visited@.len() == n,
                stack@.len() == ns + nt,
                forall|idx: int| ns <= idx < ns + nt
                    ==> #[trigger] stack@[idx] == (f.targets@[idx - ns], g.targets@[idx - ns]),
                forall|k: int| 0 <= k < n && #[trigger] visited@[k]
                    ==> in_stack(stack@, k as usize),
                forall|q2: int| 0 <= q2 < f.sources@.len()
                    ==> visited@[(#[trigger] f.sources@[q2]) as int],
                forall|q2: int| 0 <= q2 < p ==> visited@[(#[trigger] f.targets@[q2]) as int],
            decreases nt - p,
        {
            let ghost pre = visited@;
            let target_node = f.targets[p];
            visited[target_node] = true;
            proof {
                assert((stack@[ns + p as int]).0 == target_node);
                assert(in_stack(stack@, target_node));
                assert forall|k: int| 0 <= k < n && #[trigger] visited@[k] implies
                    in_stack(stack@, k as usize) by {
                    if k != target_node {
                        assert(visited@[k] == pre[k]);
                    }
                }
            }
            p += 1;
        }

        proof {
            // the interface seeding follows any renumbering of f
            assert forall|pi: Seq<usize>| #[trigger] renaming_ok(*f, *g, pi) implies
                renaming_tracked(*f, *g, pi, stack@, node_mapping@, edge_mapping@) by {
                assert forall|idx: int| 0 <= idx < stack@.len() implies
                    (#[trigger] stack@[idx]).1 == pi[stack@[idx].0 as int] by {
                    if idx < ns {
                        assert(stack@[idx] == (f.sources@[idx], g.sources@[idx]));
                        assert(g.sources@[idx] == pi[f.sources@[idx] as int]);
                    } else {
                        assert(stack@[idx] == (f.targets@[idx - ns], g.targets@[idx - ns]));
                        assert(g.targets@[idx - ns] == pi[f.targets@[idx - ns] as int]);
                    }
                }
            }
            assert(stack_ok(stack@, *f, *g, visited@)) by {
                assert forall|idx: int| 0 <= idx < stack@.len() implies
                    ((#[trigger] stack@[idx]).0 < f.node_count()
                        && stack@[idx].1 < g.node_count()
                        && visited@[stack@[idx].0 as int]) by {
                    if idx < ns {
                        assert(stack@[idx] == (f.sources@[idx], g.sources@[idx]));
                    } else {
                        assert(stack@[idx] == (f.targets@[idx - ns], g.targets@[idx - ns]));
                    }
                }
            }
        }

        // For each proposed pairing of nodes, ...
        while stack.len() > 0
            invariant
                f.wf(),
                g.wf(),
                state_wf(*self, *f, *g),
                monogamous_interfaces(*f),
                nogood_spec(*f, *g),
                n == f.node_count(),
                e == f.edge_count(),
                g.node_count() == n,
                g.edge_count() == e,
                node_mapping@.len() == n,
                edge_mapping@.len() == e,
                visited@.len() == n,
                stack_ok(stack@, *f, *g, visited@),
                nm_ok(node_mapping@, *f, *g),
                em_ok(edge_mapping@, *f, *g),
                em_coverage(edge_mapping@, *f, visited@),
                visited_ok(visited@, node_mapping@, stack@),
                obligations_ok(*self, node_mapping@, edge_mapping@),
                interfaces_marked(*f, visited@),
                forall|pi: Seq<usize>| #[trigger] renaming_ok(*f, *g, pi)
                    ==> renaming_tracked(*f, *g, pi, stack@, node_mapping@, edge_mapping@),
            decreases count_false(visited@), stack@.len(),
        {
            let ghost pre_stack = stack@;
            let pr = stack.pop().unwrap();
            let (f_node, g_node) = pr;
            let ghost mid_stack = stack@;
            proof {
                assert(pre_stack[pre_stack.len() - 1] == (f_node, g_node));
                assert(f_node < n && g_node < g.node_count());
                assert(visited@[f_node as int]);
                // the invariants, with the popped pair set aside
                assert forall|x: int| 0 <= x < n && #[trigger] visited@[x] implies
                    (node_mapping@[x] is Some || in_stack(mid_stack, x as usize)
                        || x == f_node as int) by {
                    if !(node_mapping@[x] is Some) && x != f_node {
                        assert(in_stack(pre_stack, x as usize));
                        let idx = choose|idx: int| 0 <= idx < pre_stack.len()
                            && (#[trigger] pre_stack[idx]).0 == x as usize;
                        assert(idx < pre_stack.len() - 1);
                        assert(mid_stack[idx] == pre_stack[idx]);
                        assert(in_stack(mid_stack, x as usize));
                    }
                }
                assert forall|idx: int| 0 <= idx < mid_stack.len() implies
                    ((#[trigger] mid_stack[idx]).0 < f.node_count()
                        && mid_stack[idx].1 < g.node_count()
                        && visited@[mid_stack[idx].0 as int]) by {
                    assert(mid_stack[idx] == pre_stack[idx]);
                }
                assert(stack_ok(mid_stack, *f, *g, visited@));
                assert forall|pi: Seq<usize>| #[trigger] renaming_ok(*f, *g, pi) implies
                    (g_node == pi[f_node as int]
                        && (forall|idx: int| 0 <= idx < mid_stack.len()
                            ==> (#[trigger] mid_stack[idx]).1
                                == pi[mid_stack[idx].0 as int])) by {
                    assert((pre_stack[pre_stack.len() - 1]).1
                        == pi[(pre_stack[pre_stack.len() - 1]).0 as int]);
                    assert forall|idx: int| 0 <= idx < mid_stack.len() implies
                        (#[trigger] mid_stack[idx]).1 == pi[mid_stack[idx].0 as int] by {
                        assert(mid_stack[idx] == pre_stack[idx]);
                        assert((pre_stack[idx]).1 == pi[(pre_stack[idx]).0 as int]);
                    }
                }
            }

            // Check node labels are equal
            if f.hypergraph.nodes[f_node] != g.hypergraph.nodes[g_node] {
                proof {
                    assert forall|pi: Seq<usize>| renaming_ok(*f, *g, pi) && connected(*f)
                        implies false by {
                        assert((pre_stack[pre_stack.len() - 1]).1
                            == pi[(pre_stack[pre_stack.len() - 1]).0 as int]);
                        assert(g.hypergraph.nodes@[pi[f_node as int] as int]
                            == f.hypergraph.nodes@[f_node as int]);
                    }
                }
                return Err(Error::InvalidNodeMatch(f_node, g_node));
            }

            // If f_node is a source (resp. target) of some edge
            // (monogamicity => zero or one), pair that edge with the
            // corresponding one in g (if possible!)
            let f_src_entry = self.f_index.of_source[f_node];
            if let Some((f_edge, f_port)) = f_src_entry {
                proof {
                    assert(is_source_at(f.hypergraph, f_node, f_edge as int, f_port as int));
                    assert(f_edge < e);
                }
                match self.g_index.of_source[g_node] {
                    Some((g_edge, g_port)) => {
                        proof {
                            assert(is_source_at(g.hypergraph, g_node, g_edge as int,
                                g_port as int));
                            assert(g_edge < e);
                        }
                        // Check g node is at the same source position
                        if f_port != g_port {
                            proof {
                                assert forall|pi: Seq<usize>| renaming_ok(*f, *g, pi)
                                    && connected(*f) implies false by {
                                    assert((pre_stack[pre_stack.len() - 1]).1
                                        == pi[(pre_stack[pre_stack.len() - 1]).0 as int]);
                                    lemma_renaming_source_entry(*f, *g, pi, f_node,
                                        f_edge as int, f_port as int, g_edge as int,
                                        g_port as int);
                                }
                            }
                            return Err(Error::InvalidNodeMatch(f_node, g_node));
                        }

                        // Identify the f/g edges, and update edge mapping
                        let ghost s_before = stack@;
                        let ghost v_before = visited@;
                        match self.identify_edges(f, g, &mut stack, &mut visited, f_edge,
                            g_edge) {
                            Err(err) => {
                                proof {
                                    assert forall|pi: Seq<usize>| renaming_ok(*f, *g, pi)
                                        && connected(*f) implies false by {
                                        assert((pre_stack[pre_stack.len() - 1]).1
                                            == pi[(pre_stack[pre_stack.len() - 1]).0 as int]);
                                        lemma_renaming_source_entry(*f, *g, pi, f_node,
                                            f_edge as int, f_port as int, g_edge as int,
                                            g_port as int);
                                        lemma_renaming_edge_compatible(*f, *g, pi,
                                            f_edge as int);
                                    }
                                }
                                return Err(err);
                            },
                            Ok(()) => {},
                        }
                        let ghost em_before = edge_mapping@;
                        edge_mapping[f_edge] = Some(g_edge);
                        proof {
                            restore_after_identify(self, f, g, f_node, g_node, f_edge, g_edge,
                                s_before, v_before, em_before, stack@, visited@,
                                edge_mapping@, node_mapping@);
                        }
                    },
                    None => {
                        proof {
                            assert forall|pi: Seq<usize>| renaming_ok(*f, *g, pi)
                                && connected(*f) implies false by {
                                assert((pre_stack[pre_stack.len() - 1]).1
                                    == pi[(pre_stack[pre_stack.len() - 1]).0 as int]);
                                lemma_renaming_source_occurrence(*f, *g, pi, f_node,
                                    f_edge as int, f_port as int);
                                assert(is_source_at(g.hypergraph, g_node, f_edge as int,
                                    f_port as int));
                                assert(is_source_of_some(g.hypergraph, g_node));
                            }
                        }
                        return Err(Error::InvalidNodeMatch(f_node, g_node));
                    },
                }
            }

            let f_tgt_entry = self.f_index.of_target[f_node];
            if let Some((f_edge, f_port)) = f_tgt_entry {
                proof {
                    assert(is_target_at(f.hypergraph, f_node, f_edge as int, f_port as int));
                    assert(f_edge < e);
                }
                match self.g_index.of_target[g_node] {
                    Some((g_edge, g_port)) => {
                        proof {
                            assert(is_target_at(g.hypergraph, g_node, g_edge as int,
                                g_port as int));
                            assert(g_edge < e);
                        }
                        if f_port != g_port {
                            proof {
                                assert forall|pi: Seq<usize>| renaming_ok(*f, *g, pi)
                                    && connected(*f) implies false by {
                                    assert((pre_stack[pre_stack.len() - 1]).1
                                        == pi[(pre_stack[pre_stack.len() - 1]).0 as int]);
                                    lemma_renaming_target_entry(*f, *g, pi, f_node,
                                        f_edge as int, f_port as int, g_edge as int,
                                        g_port as int);
                                }
                            }
                            return Err(Error::InvalidNodeMatch(f_node, g_node));
                        }

                        let ghost s_before = stack@;
                        let ghost v_before = visited@;
                        match self.identify_edges(f, g, &mut stack, &mut visited, f_edge,
                            g_edge) {
                            Err(err) => {
                                proof {
                                    assert forall|pi: Seq<usize>| renaming_ok(*f, *g, pi)
                                        && connected(*f) implies false by {
                                        assert((pre_stack[pre_stack.len() - 1]).1
                                            == pi[(pre_stack[pre_stack.len() - 1]).0 as int]);
                                        lemma_renaming_target_entry(*f, *g, pi, f_node,
                                            f_edge as int, f_port as int, g_edge as int,
                                            g_port as int);
                                        lemma_renaming_edge_compatible(*f, *g, pi,
                                            f_edge as int);
                                    }
                                }
                                return Err(err);
                            },
                            Ok(()) => {},
                        }
                        let ghost em_before = edge_mapping@;
                        edge_mapping[f_edge] = Some(g_edge);
                        proof {
                            restore_after_identify(self, f, g, f_node, g_node, f_edge, g_edge,
                                s_before, v_before, em_before, stack@, visited@,
                                edge_mapping@, node_mapping@);
                        }
                    },
                    None => {
                        proof {
                            assert forall|pi: Seq<usize>| renaming_ok(*f, *g, pi)
                                && connected(*f) implies false by {
                                assert((pre_stack[pre_stack.len() - 1]).1
                                    == pi[(pre_stack[pre_stack.len() - 1]).0 as int]);
                                lemma_renaming_target_occurrence(*f, *g, pi, f_node,
                                    f_edge as int, f_port as int);
                                assert(is_target_at(g.hypergraph, g_node, f_edge as int,
                                    f_port as int));
                                assert(is_target_of_some(g.hypergraph, g_node));
                            }
                        }
                        return Err(Error::InvalidNodeMatch(f_node, g_node));
                    },
                }
            }

            // Finally, assign the node to the mapping
            let ghost nm_before = node_mapping@;
            node_mapping[f_node] = Some(g_node);
            proof {
                assert(node_mapping@ == nm_before.update(f_node as int, Some(g_node)));
                assert(nm_ok(node_mapping@, *f, *g)) by {
                    assert forall|x: int| 0 <= x < n implies
                        ((#[trigger] node_mapping@[x]) matches Some(y)
                            ==> y < g.node_count()
                                && g.hypergraph.nodes@[y as int] == f.hypergraph.nodes@[x]) by {
                        if x != f_node {
                            assert(node_mapping@[x] == nm_before[x]);
                        }
                    }
                }
                assert(visited_ok(visited@, node_mapping@, stack@)) by {
                    assert forall|x: int| 0 <= x < n && #[trigger] visited@[x] implies
                        (node_mapping@[x] is Some || in_stack(stack@, x as usize)) by {
                        if x != f_node {
                            assert(nm_before[x] is Some || in_stack(stack@, x as usize)
                                || x == f_node as int);
                            if nm_before[x] is Some {
                                assert(node_mapping@[x] == nm_before[x]);
                            }
                        }
                    }
                }
                assert(obligations_ok(*self, node_mapping@, edge_mapping@)) by {
                    assert forall|x: int| 0 <= x < n && (#[trigger] node_mapping@[x]) is Some
                        implies (match self.f_index.of_source@[x] {
                            Some((e1, p1)) => edge_mapping@[e1 as int] is Some,
                            None => true,
                        } && match self.f_index.of_target@[x] {
                            Some((e1, p1)) => edge_mapping@[e1 as int] is Some,
                            None => true,
                        }) by {
                        if x != f_node {
                            assert(node_mapping@[x] == nm_before[x]);
                        }
                    }
                }
                assert forall|pi: Seq<usize>| #[trigger] renaming_ok(*f, *g, pi) implies
                    renaming_tracked(*f, *g, pi, stack@, node_mapping@, edge_mapping@) by {
                    assert((pre_stack[pre_stack.len() - 1]).1
                        == pi[(pre_stack[pre_stack.len() - 1]).0 as int]);
                    assert forall|x: int| 0 <= x < n implies
                        ((#[trigger] node_mapping@[x]) matches Some(y) ==> y == pi[x]) by {
                        if x != f_node {
                            assert(node_mapping@[x] == nm_before[x]);
                        }
                    }
                }
            }
        }

        // After the worklist empties every entry must be set.  Under full
        // monogamicity the set of visited nodes is closed under crossing
        // edges, so it swallows everything reachable from the interfaces;
        // for a renumbering of a connected input this forces completeness.
        let ghost vset = Set::new(|x: usize| x < n && visited@[x as int]);
        proof {
            if monogamous(f.hypergraph) {
                assert forall|x: usize| interface_node(*f, x) implies
                    #[trigger] vset.contains(x) by {
                    if f.sources@.contains(x) {
                        let q2 = choose|q2: int| 0 <= q2 < f.sources@.len()
                            && f.sources@[q2] == x;
                        assert(visited@[(f.sources@[q2]) as int]);
                        assert(f.sources@[q2] < f.node_count());
                    } else {
                        let q2 = choose|q2: int| 0 <= q2 < f.targets@.len()
                            && f.targets@[q2] == x;
                        assert(visited@[(f.targets@[q2]) as int]);
                        assert(f.targets@[q2] < f.node_count());
                    }
                }
                assert forall|x: usize, e1: int, y: usize|
                    vset.contains(x) && #[trigger] edge_touches(f.hypergraph, e1, x)
                        && #[trigger] edge_touches(f.hypergraph, e1, y)
                    implies vset.contains(y) by {
                    assert(visited@[x as int]);
                    assert(!in_stack(stack@, x));
                    assert(node_mapping@[x as int] is Some);
                    assert(y < f.node_count()) by {
                        if exists|p2: int| #[trigger] is_target_at(f.hypergraph, y, e1, p2) {
                            let p2 = choose|p2: int|
                                #[trigger] is_target_at(f.hypergraph, y, e1, p2);
                        } else {
                            let p2 = choose|p2: int|
                                #[trigger] is_source_at(f.hypergraph, y, e1, p2);
                        }
                    }
                    if exists|p2: int| #[trigger] is_source_at(f.hypergraph, x, e1, p2) {
                        let p2 = choose|p2: int|
                            #[trigger] is_source_at(f.hypergraph, x, e1, p2);
                        assert(is_source_of_some(f.hypergraph, x));
                        assert(self.f_index.of_source@[x as int] is Some);
                        let (e2, q2) = self.f_index.of_source@[x as int]->Some_0;
                        assert(is_source_at(f.hypergraph, x, e2 as int, q2 as int));
                        assert(e2 == e1 && q2 == p2);
                        assert(edge_mapping@[e1] is Some);
                        assert(visited@[y as int]);
                    } else {
                        let p2 = choose|p2: int|
                            #[trigger] is_target_at(f.hypergraph, x, e1, p2);
                        assert(is_target_of_some(f.hypergraph, x));
                        assert(self.f_index.of_target@[x as int] is Some);
                        let (e2, q2) = self.f_index.of_target@[x as int]->Some_0;
                        assert(is_target_at(f.hypergraph, x, e2 as int, q2 as int));
                        assert(e2 == e1 && q2 == p2);
                        assert(edge_mapping@[e1] is Some);
                        assert(visited@[y as int]);
                    }
                }
                assert(closed_set(*f, vset));
                // unassigned entries are therefore unreachable
                assert forall|x: int| 0 <= x < n && !((#[trigger] node_mapping@[x]) is Some)
                    implies !in_reach(*f, x as usize) by {
                    assert(!visited@[x]);
                    if in_reach(*f, x as usize) {
                        assert(vset.contains(x as usize));
                    }
                }
                assert forall|j: int| 0 <= j < e && !((#[trigger] edge_mapping@[j]) is Some)
                    implies !(exists|x: usize| #[trigger] edge_touches(f.hypergraph, j, x)
                        && in_reach(*f, x)) by {
                    if exists|x: usize| #[trigger] edge_touches(f.hypergraph, j, x)
                        && in_reach(*f, x) {
                        let x = choose|x: usize| #[trigger] edge_touches(f.hypergraph, j, x)
                            && in_reach(*f, x);
                        assert(x < f.node_count()) by {
                            if exists|p2: int| #[trigger] is_target_at(f.hypergraph, x, j,
                                p2) {
                                let p2 = choose|p2: int|
                                    #[trigger] is_target_at(f.hypergraph, x, j, p2);
                            } else {
                                let p2 = choose|p2: int|
                                    #[trigger] is_source_at(f.hypergraph, x, j, p2);
                            }
                        }
                        assert(vset.contains(x));
                        assert(visited@[x as int]);
                        assert(!in_stack(stack@, x));
                        assert(node_mapping@[x as int] is Some);
                        if exists|p2: int| #[trigger] is_source_at(f.hypergraph, x, j, p2) {
                            let p2 = choose|p2: int|
                                #[trigger] is_source_at(f.hypergraph, x, j, p2);
                            assert(is_source_of_some(f.hypergraph, x));
                            assert(self.f_index.of_source@[x as int] is Some);
                            let (e2, q2) = self.f_index.of_source@[x as int]->Some_0;
                            assert(is_source_at(f.hypergraph, x, e2 as int, q2 as int));
                            assert(e2 == j);
                            assert(edge_mapping@[j] is Some);
                        } else {
                            let p2 = choose|p2: int|
                                #[trigger] is_target_at(f.hypergraph, x, j, p2);
                            assert(is_target_of_some(f.hypergraph, x));
                            assert(self.f_index.of_target@[x as int] is Some);
                            let (e2, q2) = self.f_index.of_target@[x as int]->Some_0;
                            assert(is_target_at(f.hypergraph, x, e2 as int, q2 as int));
                            assert(e2 == j);
                            assert(edge_mapping@[j] is Some);
                        }
                    }
                }
            }
            assert forall|pi: Seq<usize>| #[trigger] renaming_ok(*f, *g, pi) && connected(*f)
                implies ((forall|x: int| 0 <= x < n
                        ==> (#[trigger] node_mapping@[x]) == Some(pi[x]))
                    && (forall|j: int| 0 <= j < e
                        ==> (#[trigger] edge_mapping@[j]) == Some(j as usize))) by {
                assert(monogamous(f.hypergraph));
                assert forall|x: int| 0 <= x < n implies
                    (#[trigger] node_mapping@[x]) == Some(pi[x]) by {
                    assert(in_reach(*f, x as usize));
                    assert(node_mapping@[x] is Some);
                }
                assert forall|j: int| 0 <= j < e implies
                    (#[trigger] edge_mapping@[j]) == Some(j as usize) by {
                    assert(edge_inhabited(f.hypergraph, j));
                    let x = choose|x: usize| edge_touches(f.hypergraph, j, x);
                    assert(x < f.node_count()) by {
                        if exists|p2: int| #[trigger] is_target_at(f.hypergraph, x, j, p2) {
                            let p2 = choose|p2: int|
                                #[trigger] is_target_at(f.hypergraph, x, j, p2);
                        } else {
                            let p2 = choose|p2: int|
                                #[trigger] is_source_at(f.hypergraph, x, j, p2);
                        }
                    }
                    assert(in_reach(*f, x));
                    assert(edge_touches(f.hypergraph, j, x) && in_reach(*f, x));
                    assert(edge_mapping@[j] is Some);
                }
            }
        }

        // Ensure the node mapping is complete.  If some node is unset, it
        // was unreachable from the interfaces.
        let mut nm_out: Vec<usize> = Vec::new();
        let mut i: usize = 0;
        while i < n
            invariant
                f.wf(),
                g.wf(),
                nogood_spec(*f, *g),
                n == f.node_count(),
                e == f.edge_count(),
                g.node_count() == n,
                g.edge_count() == e,
                node_mapping@.len() == n,
                nm_ok(node_mapping@, *f, *g),
                i <= n,
                nm_out@.len() == i,
                forall|x: int| 0 <= x < i
                    ==> node_mapping@[x] == Some(#[trigger] nm_out@[x]),
                monogamous(f.hypergraph) ==> (forall|x: int|
                    0 <= x < n && !((#[trigger] node_mapping@[x]) is Some)
                    ==> !in_reach(*f, x as usize)),
                monogamous(f.hypergraph) ==> (forall|j: int|
                    0 <= j < e && !((#[trigger] edge_mapping@[j]) is Some)
                    ==> !(exists|x: usize| #[trigger] edge_touches(f.hypergraph, j, x)
                        && in_reach(*f, x))),
                forall|pi: Seq<usize>| #[trigger] renaming_ok(*f, *g, pi) && connected(*f)
                    ==> ((forall|x: int| 0 <= x < n
                            ==> (#[trigger] node_mapping@[x]) == Some(pi[x]))
                        && (forall|j: int| 0 <= j < e
                            ==> (#[trigger] edge_mapping@[j]) == Some(j as usize))),
            decreases n - i,
        {
            match node_mapping[i] {
                Some(v) => {
                    nm_out.push(v);
                },
                None => {
                    proof {
                        assert forall|pi: Seq<usize>| renaming_ok(*f, *g, pi) && connected(*f)
                            implies false by {
                            assert(node_mapping@[i as int] == Some(pi[i as int]));
                        }
                    }
                    return Err(Error::UnpairedNode(i));
                },
            }
            i += 1;
        }

        let mut em_out: Vec<usize> = Vec::new();
        let mut i: usize = 0;
        while i < e
            invariant
                f.wf(),
                g.wf(),
                nogood_spec(*f, *g),
                n == f.node_count(),
                e == f.edge_count(),
                g.node_count() == n,
                g.edge_count() == e,
                node_mapping@.len() == n,
                edge_mapping@.len() == e,
                nm_ok(node_mapping@, *f, *g),
                em_ok(edge_mapping@, *f, *g),
                nm_out@.len() == n,
                forall|x: int| 0 <= x < n
                    ==> node_mapping@[x] == Some(#[trigger] nm_out@[x]),
                i <= e,
                em_out@.len() == i,
                forall|j: int| 0 <= j < i
                    ==> edge_mapping@[j] == Some(#[trigger] em_out@[j]),
                monogamous(f.hypergraph) ==> (forall|j: int|
                    0 <= j < e && !((#[trigger] edge_mapping@[j]) is Some)
                    ==> !(exists|x: usize| #[trigger] edge_touches(f.hypergraph, j, x)
                        && in_reach(*f, x))),
                forall|pi: Seq<usize>| #[trigger] renaming_ok(*f, *g, pi) && connected(*f)
                    ==> ((forall|x: int| 0 <= x < n
                            ==> (#[trigger] node_mapping@[x]) == Some(pi[x]))
                        && (forall|j: int| 0 <= j < e
                            ==> (#[trigger] edge_mapping@[j]) == Some(j as usize))),
            decreases e - i,
        {
            match edge_mapping[i] {
                Some(v) => {
                    em_out.push(v);
                },
                None => {
                    proof {
                        assert forall|pi: Seq<usize>| renaming_ok(*f, *g, pi) && connected(*f)
                            implies false by {
                            assert(edge_mapping@[i as int] == Some(i));
                        }
                    }
                    return Err(Error::UnpairedEdge(i));
                },
            }
            i += 1;
        }

        proof {
            assert forall|i2: int| 0 <= i2 < f.node_count() implies
                ((#[trigger] nm_out@[i2]) < g.node_count()
                    && g.hypergraph.nodes@[nm_out@[i2] as int] == f.hypergraph.nodes@[i2]) by {
                assert(node_mapping@[i2] == Some(nm_out@[i2]));
            }
            assert forall|j2: int| 0 <= j2 < f.edge_count() implies
                ((#[trigger] em_out@[j2]) < g.edge_count()
                    && edge_compatible(*f, *g, j2, em_out@[j2] as int)) by {
                assert(edge_mapping@[j2] == Some(em_out@[j2]));
            }
            assert forall|pi: Seq<usize>| #[trigger] renaming_ok(*f, *g, pi) && connected(*f)
                implies (nm_out@ == pi && em_out@ == identity_seq(f.edge_count())) by {
                assert forall|x: int| 0 <= x < n implies #[trigger] nm_out@[x] == pi[x] by {
                    assert(node_mapping@[x] == Some(pi[x]));
                    assert(node_mapping@[x] == Some(nm_out@[x]));
                }
                assert(nm_out@ =~= pi);
                assert forall|j: int| 0 <= j < e implies
                    #[trigger] em_out@[j] == identity_seq(f.edge_count())[j] by {
                    assert(edge_mapping@[j] == Some(j as usize));
                    assert(edge_mapping@[j] == Some(em_out@[j]));
                }
                assert(em_out@ =~= identity_seq(f.edge_count()));
            }
        }

        Ok((nm_out, em_out))
    }
}

/// Re-establish the worklist invariants after one edge identification and
/// the matching edge-mapping write: the new worklist pairs follow the edge
/// positionally, every touched node is visited, and, under a renumbering,
/// everything still tracks it.
proof fn restore_after_identify(st: &SearchState, f: &OpenHypergraph, g: &OpenHypergraph,
    f_node: usize, g_node: usize, f_edge: usize, g_edge: usize,
    s_before: Seq<(usize, usize)>, v_before: Seq<bool>,
    em_before: Seq<Option<usize>>, s_now: Seq<(usize, usize)>, v_now: Seq<bool>,
    em_now: Seq<Option<usize>>, nm_now: Seq<Option<usize>>)
    requires
        f.wf(),
        g.wf(),
        state_wf(*st, *f, *g),
        g.node_count() == f.node_count(),
        g.edge_count() == f.edge_count(),
        f_edge < f.edge_count(),
        g_edge < g.edge_count(),
        f_node < f.node_count(),
        g_node < g.node_count(),
        (exists|p: int| #[trigger] is_source_at(f.hypergraph, f_node, f_edge as int, p)
            && is_source_at(g.hypergraph, g_node, g_edge as int, p))
            || (exists|p: int| #[trigger] is_target_at(f.hypergraph, f_node, f_edge as int, p)
                && is_target_at(g.hypergraph, g_node, g_edge as int, p)),
        v_before.len() == f.node_count(),
        v_now.len() == f.node_count(),
        stack_ok(s_before, *f, *g, v_before),
        nm_ok(nm_now, *f, *g),
        nm_now.len() == f.node_count(),
        em_before.len() == f.edge_count(),
        em_now == em_before.update(f_edge as int, Some(g_edge)),
        em_ok(em_before, *f, *g),
        em_coverage(em_before, *f, v_before),
        obligations_ok(*st, nm_now, em_before),
        edge_compatible(*f, *g, f_edge as int, g_edge as int),
        // what identify_edges guaranteed
        forall|k: int| 0 <= k < f.node_count() && v_before[k] ==> #[trigger] v_now[k],
        forall|k: int| 0 <= k < f.node_count() && #[trigger] v_now[k]
            ==> (v_before[k] || edge_touches(f.hypergraph, f_edge as int, k as usize)),
        forall|k: usize| k < f.node_count()
                && #[trigger] edge_touches(f.hypergraph, f_edge as int, k)
            ==> v_now[k as int],
        s_now.len() >= s_before.len(),
        s_now.take(s_before.len() as int) == s_before,
        forall|idx: int| s_before.len() <= idx < s_now.len()
            ==> pushed_pair(nbhd(f.hypergraph, f_edge as int),
                nbhd(g.hypergraph, g_edge as int), v_before, #[trigger] s_now[idx]),
        forall|k: int| 0 <= k < f.node_count() && #[trigger] v_now[k] && !v_before[k]
            ==> in_stack(s_now, k as usize),
        // what held before this identification
        forall|x: int| 0 <= x < v_before.len() && #[trigger] v_before[x]
            ==> (nm_now[x] is Some || in_stack(s_before, x as usize)
                || x == f_node as int),
        interfaces_marked(*f, v_before),
        forall|pi: Seq<usize>| #[trigger] renaming_ok(*f, *g, pi)
            ==> ((forall|idx: int| 0 <= idx < s_before.len()
                    ==> (#[trigger] s_before[idx]).1 == pi[s_before[idx].0 as int])
                && (forall|x: int| 0 <= x < nm_now.len()
                    ==> ((#[trigger] nm_now[x]) matches Some(y) ==> y == pi[x]))
                && (forall|j: int| 0 <= j < em_before.len()
                    ==> ((#[trigger] em_before[j]) matches Some(j2) ==> j2 == j))),
        forall|pi: Seq<usize>| #[trigger] renaming_ok(*f, *g, pi)
            ==> g_node == pi[f_node as int],
    ensures
        stack_ok(s_now, *f, *g, v_now),
        em_ok(em_now, *f, *g),
        em_coverage(em_now, *f, v_now),
        forall|x: int| 0 <= x < v_now.len() && #[trigger] v_now[x]
            ==> (nm_now[x] is Some || in_stack(s_now, x as usize)
                || x == f_node as int),
        obligations_ok(*st, nm_now, em_now),
        interfaces_marked(*f, v_now),
        em_now[f_edge as int] is Some,
        forall|j: int| 0 <= j < em_before.len() && (#[trigger] em_before[j]) is Some
            ==> em_now[j] is Some,
        forall|pi: Seq<usize>| #[trigger] renaming_ok(*f, *g, pi)
            ==> ((forall|idx: int| 0 <= idx < s_now.len()
                    ==> (#[trigger] s_now[idx]).1 == pi[s_now[idx].0 as int])
                && (forall|x: int| 0 <= x < nm_now.len()
                    ==> ((#[trigger] nm_now[x]) matches Some(y) ==> y == pi[x]))
                && (forall|j: int| 0 <= j < em_now.len()
                    ==> ((#[trigger] em_now[j]) matches Some(j2) ==> j2 == j))),
{
    let fnb = nbhd(f.hypergraph, f_edge as int);
    let gnb = nbhd(g.hypergraph, g_edge as int);
    let sl = f.hypergraph.adjacency@[f_edge as int].sources@.len() as int;
    let gsl = g.hypergraph.adjacency@[g_edge as int].sources@.len() as int;
    assert(gsl == sl && gnb.len() == fnb.len()) by {
        assert(label_seq(f.hypergraph, f.hypergraph.adjacency@[f_edge as int].sources@).len()
            == label_seq(g.hypergraph, g.hypergraph.adjacency@[g_edge as int].sources@).len());
        assert(label_seq(f.hypergraph, f.hypergraph.adjacency@[f_edge as int].targets@).len()
            == label_seq(g.hypergraph, g.hypergraph.adjacency@[g_edge as int].targets@).len());
    }

    // bounds and visitedness for every pair that the identification pushed
    assert forall|idx: int| 0 <= idx < s_now.len() implies
        ((#[trigger] s_now[idx]).0 < f.node_count() && s_now[idx].1 < g.node_count()
            && v_now[s_now[idx].0 as int]) by {
        if idx < s_before.len() {
            assert(s_now.take(s_before.len() as int)[idx] == s_now[idx]);
            assert(s_now[idx] == s_before[idx]);
            assert(v_before[s_before[idx].0 as int]);
        } else {
            assert(pushed_pair(fnb, gnb, v_before, s_now[idx]));
            let j = choose|j: int| 0 <= j < fnb.len() && #[trigger] fnb[j] == (s_now[idx]).0
                && gnb[j] == (s_now[idx]).1 && !v_before[(s_now[idx]).0 as int];
            if j < sl {
                assert(is_source_at(f.hypergraph, fnb[j], f_edge as int, j));
                assert(is_source_at(g.hypergraph, gnb[j], g_edge as int, j));
            } else {
                assert(is_target_at(f.hypergraph, fnb[j], f_edge as int, j - sl));
                assert(is_target_at(g.hypergraph, gnb[j], g_edge as int, j - sl));
            }
            assert(edge_touches(f.hypergraph, f_edge as int, fnb[j]));
            assert(v_now[fnb[j] as int]);
        }
    }

    assert forall|j: int| 0 <= j < em_now.len() implies
        ((#[trigger] em_now[j]) matches Some(j2)
            ==> j2 < g.edge_count() && edge_compatible(*f, *g, j, j2 as int)) by {
        if j != f_edge {
            assert(em_now[j] == em_before[j]);
        }
    }

    assert forall|j: int, k: usize| 0 <= j < em_now.len() && k < f.node_count()
        && (#[trigger] em_now[j]) is Some && #[trigger] edge_touches(f.hypergraph, j, k)
        implies v_now[k as int] by {
        if j == f_edge {
            assert(v_now[k as int]);
        } else {
            assert(em_now[j] == em_before[j]);
            assert(v_before[k as int]);
        }
    }

    assert forall|x: int| 0 <= x < v_now.len() && #[trigger] v_now[x] implies
        (nm_now[x] is Some || in_stack(s_now, x as usize) || x == f_node as int) by {
        if v_before[x] {
            if nm_now[x] is Some || x == f_node as int {
            } else {
                assert(in_stack(s_before, x as usize));
                lemma_in_stack_extend(s_before, s_now, x as usize);
            }
        } else {
            assert(in_stack(s_now, x as usize));
        }
    }

    assert forall|x: int| 0 <= x < nm_now.len() && (#[trigger] nm_now[x]) is Some implies
        (match st.f_index.of_source@[x] {
            Some((e1, p1)) => em_now[e1 as int] is Some,
            None => true,
        } && match st.f_index.of_target@[x] {
            Some((e1, p1)) => em_now[e1 as int] is Some,
            None => true,
        }) by {
        if let Some((e1, p1)) = st.f_index.of_source@[x] {
            assert(em_before[e1 as int] is Some);
            if e1 != f_edge {
                assert(em_now[e1 as int] == em_before[e1 as int]);
            }
        }
        if let Some((e1, p1)) = st.f_index.of_target@[x] {
            assert(em_before[e1 as int] is Some);
            if e1 != f_edge {
                assert(em_now[e1 as int] == em_before[e1 as int]);
            }
        }
    }

    assert forall|p: int| 0 <= p < f.sources@.len() implies
        v_now[(#[trigger] f.sources@[p]) as int] by {
        assert(v_before[(f.sources@[p]) as int]);
    }
    assert forall|p: int| 0 <= p < f.targets@.len() implies
        v_now[(#[trigger] f.targets@[p]) as int] by {
        assert(v_before[(f.targets@[p]) as int]);
    }

    assert forall|pi: Seq<usize>| #[trigger] renaming_ok(*f, *g, pi) implies
        ((forall|idx: int| 0 <= idx < s_now.len()
                ==> (#[trigger] s_now[idx]).1 == pi[s_now[idx].0 as int])
            && (forall|x: int| 0 <= x < nm_now.len()
                ==> ((#[trigger] nm_now[x]) matches Some(y) ==> y == pi[x]))
            && (forall|j: int| 0 <= j < em_now.len()
                ==> ((#[trigger] em_now[j]) matches Some(j2) ==> j2 == j))) by {
        // under pi, the g edge paired with f_edge is f_edge itself
        assert(g_node == pi[f_node as int]);
        assert(g_edge == f_edge) by {
            if exists|p: int| is_source_at(f.hypergraph, f_node, f_edge as int, p)
                && is_source_at(g.hypergraph, g_node, g_edge as int, p) {
                let p = choose|p: int| is_source_at(f.hypergraph, f_node, f_edge as int, p)
                    && is_source_at(g.hypergraph, g_node, g_edge as int, p);
                lemma_renaming_source_entry(*f, *g, pi, f_node, f_edge as int, p,
                    g_edge as int, p);
            } else {
                let p = choose|p: int| is_target_at(f.hypergraph, f_node, f_edge as int, p)
                    && is_target_at(g.hypergraph, g_node, g_edge as int, p);
                lemma_renaming_target_entry(*f, *g, pi, f_node, f_edge as int, p,
                    g_edge as int, p);
            }
        }
        assert forall|idx: int| 0 <= idx < s_now.len() implies
            (#[trigger] s_now[idx]).1 == pi[s_now[idx].0 as int] by {
            if idx < s_before.len() {
                assert(s_now.take(s_before.len() as int)[idx] == s_now[idx]);
                assert(s_now[idx] == s_before[idx]);
            } else {
                assert(pushed_pair(fnb, gnb, v_before, s_now[idx]));
                let j = choose|j: int| 0 <= j < fnb.len()
                    && #[trigger] fnb[j] == (s_now[idx]).0
                    && gnb[j] == (s_now[idx]).1 && !v_before[(s_now[idx]).0 as int];
                if j < sl {
                    assert(g.hypergraph.adjacency@[f_edge as int].sources@
                        == f.hypergraph.adjacency@[f_edge as int].sources@.map_values(
                            |v: usize| pi[v as int]));
                    assert(gnb[j] == g.hypergraph.adjacency@[f_edge as int].sources@[j]);
                    assert(gnb[j] == pi[fnb[j] as int]);
                } else {
                    assert(g.hypergraph.adjacency@[f_edge as int].targets@
                        == f.hypergraph.adjacency@[f_edge as int].targets@.map_values(
                            |v: usize| pi[v as int]));
                    assert(gnb[j] == g.hypergraph.adjacency@[f_edge as int].targets@[j - sl]);
                    assert(gnb[j] == pi[fnb[j] as int]);
                }
            }
        }
        assert forall|j: int| 0 <= j < em_now.len() implies
            ((#[trigger] em_now[j]) matches Some(j2) ==> j2 == j) by {
            if j != f_edge {
                assert(em_now[j] == em_before[j]);
            }
        }
    }
}

/// Find an isomorphism between two open hypergraphs, or say precisely why
/// none was found.  The pipeline: boundary monogamicity gate, nogood
/// pre-filter, worklist traversal, and a final bijectivity check on the
/// discovered mappings.  For a renumbered copy of a connected monogamous
/// hypergraph the result is guaranteed: exactly the renumbering on nodes
/// and the identity on edges.  In particular, for a connected monogamous
/// `f`, searching against `f` itself recovers the identity isomorphism.
pub fn find_isomorphism(f: &OpenHypergraph, g: &OpenHypergraph) -> (r: Result<Isomorphism, Error>)
    requires
        f.wf(),
        g.wf(),
    ensures
        (!monogamous_interfaces(*f)) <==> (r matches Err(err)
            && err matches Error::NonMonogamous(_)),
        r matches Err(err) ==> (err matches Error::NonMonogamous(v)
            ==> interface_violation(*f, v)),
        monogamous_interfaces(*f)
            ==> ((r matches Err(err) && err == Error::Nogood) <==> !nogood_spec(*f, *g)),
        r matches Err(err) ==> (err matches Error::InvalidNodeMatch(a, b)
            ==> a < f.node_count() && b < g.node_count()
                && !nodes_compatible(*f, *g, a, b)),
        r matches Err(err) ==> (err matches Error::InvalidEdgeMatch(a, b)
            ==> a < f.edge_count() && b < g.edge_count()
                && !edge_compatible(*f, *g, a as int, b as int)),
        monogamous(f.hypergraph) ==> (r matches Err(err)
            ==> (err matches Error::UnpairedNode(i)
                ==> i < f.node_count() && !in_reach(*f, i))),
        monogamous(f.hypergraph) ==> (r matches Err(err)
            ==> (err matches Error::UnpairedEdge(j)
                ==> j < f.edge_count() && !(exists|x: usize|
                    #[trigger] edge_touches(f.hypergraph, j as int, x)
                        && in_reach(*f, x)))),
        r matches Ok(iso) ==> ({
            &&& monogamous_interfaces(*f)
            &&& nogood_spec(*f, *g)
            &&& is_permutation(iso.nodes@)
            &&& iso.nodes@.len() == f.node_count()
            &&& is_permutation(iso.edges@)
            &&& iso.edges@.len() == f.edge_count()
            &&& g.node_count() == f.node_count()
            &&& g.edge_count() == f.edge_count()
            &&& forall|i: int| 0 <= i < f.node_count()
                ==> (#[trigger] iso.nodes@[i]) < g.node_count()
                    && g.hypergraph.nodes@[iso.nodes@[i] as int] == f.hypergraph.nodes@[i]
            &&& forall|j: int| 0 <= j < f.edge_count()
                ==> (#[trigger] iso.edges@[j]) < g.edge_count()
                    && edge_compatible(*f, *g, j, iso.edges@[j] as int)
        }),
        forall|pi: Seq<usize>| #[trigger] renaming_ok(*f, *g, pi) && connected(*f)
            ==> (r matches Ok(iso) && iso.nodes@ == pi
                && iso.edges@ == identity_seq(f.edge_count())),
{
    let state = match SearchState::new(f, g) {
        Ok(st) => st,
        Err(err) => {
            return Err(err);
        },
    };

    let (node_mapping, edge_mapping) = match state.find_isomorphism(f, g) {
        Ok(maps) => maps,
        Err(err) => {
            return Err(err);
        },
    };
    let ghost nm = node_mapping@;
    let ghost em = edge_mapping@;
    let num_edges = edge_mapping.len();
    assert(f.edge_count() == num_edges);

    let nodes = match Permutation::new(node_mapping) {
        Some(p) => p,
        None => {
            proof {
                assert forall|pi: Seq<usize>| renaming_ok(*f, *g, pi) && connected(*f)
                    implies false by {
                    assert(nm == pi);
                }
            }
            return Err(Error::InvalidNodePermutation);
        },
    };

    let edges = match Permutation::new(edge_mapping) {
        Some(p) => p,
        None => {
            proof {
                assert forall|pi: Seq<usize>| renaming_ok(*f, *g, pi) && connected(*f)
                    implies false by {
                    assert(em == identity_seq(f.edge_count()));
                    crate::permutation::lemma_identity_seq_permutation(f.edge_count());
                }
            }
            return Err(Error::InvalidEdgePermutation);
        },
    };

    Ok(Isomorphism { nodes, edges })
}

/// The concatenated (sources then targets) neighbourhood of one edge.
spec fn nbhd(h: Hypergraph, e: int) -> Seq<usize> {
    h.adjacency@[e].sources@ + h.adjacency@[e].targets@
}

/// `k` occurs in `s` strictly before position `bound`.
spec fn occurs_before(s: Seq<usize>, bound: int, k: usize) -> bool {
    exists|j: int| 0 <= j < bound && #[trigger] s[j] == k
}

/// `pr` pairs a node of the `f` neighbourhood positionally with its
/// counterpart in the `g` neighbourhood, and that node was not yet visited
/// when the edge was identified.
spec fn pushed_pair(fnb: Seq<usize>, gnb: Seq<usize>, was_visited: Seq<bool>, pr: (usize, usize))
    -> bool {
    exists|j: int| 0 <= j < fnb.len() && #[trigger] fnb[j] == pr.0 && gnb[j] == pr.1
        && !was_visited[pr.0 as int]
}

/// Two nodes can stand in correspondence: same label, the same kind of
/// structural obligations (source of an edge, target of an edge), and
/// whenever both carry an obligation of one kind, it sits at the same
/// port.
pub open spec fn nodes_compatible(f: OpenHypergraph, g: OpenHypergraph, a: usize, b: usize)
    -> bool {
    &&& f.hypergraph.nodes@[a as int] == g.hypergraph.nodes@[b as int]
    &&& (is_source_of_some(f.hypergraph, a) <==> is_source_of_some(g.hypergraph, b))
    &&& (is_target_of_some(f.hypergraph, a) <==> is_target_of_some(g.hypergraph, b))
    &&& forall|e1: int, p1: int, e2: int, p2: int|
        #[trigger] is_source_at(f.hypergraph, a, e1, p1)
            && #[trigger] is_source_at(g.hypergraph, b, e2, p2) ==> p1 == p2
    &&& forall|e1: int, p1: int, e2: int, p2: int|
        #[trigger] is_target_at(f.hypergraph, a, e1, p1)
            && #[trigger] is_target_at(g.hypergraph, b, e2, p2) ==> p1 == p2
}

/// Two edges carry the same label and spell out the same source and target
/// label sequences: same arity, coarity and types.
pub open spec fn edge_compatible(f: OpenHypergraph, g: OpenHypergraph, fe: int, ge: int) -> bool {
    &&& f.hypergraph.edges@[fe] == g.hypergraph.edges@[ge]
    &&& label_seq(f.hypergraph, f.hypergraph.adjacency@[fe].sources@)
        == label_seq(g.hypergraph, g.hypergraph.adjacency@[ge].sources@)
    &&& label_seq(f.hypergraph, f.hypergraph.adjacency@[fe].targets@)
        == label_seq(g.hypergraph, g.hypergraph.adjacency@[ge].targets@)
}

/// How many entries of `s` are `false`: the number of nodes still to be
/// visited.
spec fn count_false(s: Seq<bool>) -> nat
    decreases s.len(),
{
    if s.len() == 0 {
        0
    } else {
        count_false(s.drop_last()) + if s.last() { 0nat } else { 1nat }
    }
}

/// The inputs on which the traversal is guaranteed to find exactly the
/// renumbering: `g` is `f` relabeled along `pi`, and `f` obeys the full
/// monogamicity discipline.
pub open spec fn renaming_ok(f: OpenHypergraph, g: OpenHypergraph, pi: Seq<usize>) -> bool {
    &&& node_renaming(f, g, pi)
    &&& monogamous(f.hypergraph)
    &&& monogamous_interfaces(f)
}

/// Under a node renumbering, occurrences correspond: `x` sits at source
/// port `p` of edge `e` in `f` exactly when `pi[x]` does in `g`.
proof fn lemma_renaming_source_occurrence(f: OpenHypergraph, g: OpenHypergraph, pi: Seq<usize>,
    x: usize, e: int, p: int)
    requires
        f.wf(),
        node_renaming(f, g, pi),
        x < f.node_count(),
    ensures
        is_source_at(f.hypergraph, x, e, p)
            <==> is_source_at(g.hypergraph, pi[x as int], e, p),
{
    if is_source_at(f.hypergraph, x, e, p) {
        assert(g.hypergraph.adjacency@[e].sources@
            == f.hypergraph.adjacency@[e].sources@.map_values(|v: usize| pi[v as int]));
        assert(g.hypergraph.adjacency@[e].sources@[p] == pi[x as int]);
    }
    if is_source_at(g.hypergraph, pi[x as int], e, p) {
        assert(g.hypergraph.adjacency@[e].sources@
            == f.hypergraph.adjacency@[e].sources@.map_values(|v: usize| pi[v as int]));
        let w = f.hypergraph.adjacency@[e].sources@[p];
        assert(g.hypergraph.adjacency@[e].sources@[p] == pi[w as int]);
        assert(w < f.node_count());
        assert(w == x);
    }
}

/// Target-side twin of `lemma_renaming_source_occurrence`.
proof fn lemma_renaming_target_occurrence(f: OpenHypergraph, g: OpenHypergraph, pi: Seq<usize>,
    x: usize, e: int, p: int)
    requires
        f.wf(),
        node_renaming(f, g, pi),
        x < f.node_count(),
    ensures
        is_target_at(f.hypergraph, x, e, p)
            <==> is_target_at(g.hypergraph, pi[x as int], e, p),
{
    if is_target_at(f.hypergraph, x, e, p) {
        assert(g.hypergraph.adjacency@[e].targets@
            == f.hypergraph.adjacency@[e].targets@.map_values(|v: usize| pi[v as int]));
        assert(g.hypergraph.adjacency@[e].targets@[p] == pi[x as int]);
    }
    if is_target_at(g.hypergraph, pi[x as int], e, p) {
        assert(g.hypergraph.adjacency@[e].targets@
            == f.hypergraph.adjacency@[e].targets@.map_values(|v: usize| pi[v as int]));
        let w = f.hypergraph.adjacency@[e].targets@[p];
        assert(g.hypergraph.adjacency@[e].targets@[p] == pi[w as int]);
        assert(w < f.node_count());
        assert(w == x);
    }
}

/// Under a renumbering of a monogamous hypergraph, `pi[x]`'s unique source
/// occurrence in `g` is exactly `x`'s unique source occurrence in `f`.
proof fn lemma_renaming_source_entry(f: OpenHypergraph, g: OpenHypergraph, pi: Seq<usize>,
    x: usize, e1: int, p1: int, e2: int, p2: int)
    requires
        f.wf(),
        renaming_ok(f, g, pi),
        x < f.node_count(),
        is_source_at(f.hypergraph, x, e1, p1),
        is_source_at(g.hypergraph, pi[x as int], e2, p2),
    ensures
        e1 == e2 && p1 == p2,
{
    lemma_renaming_source_occurrence(f, g, pi, x, e2, p2);
    assert(is_source_at(f.hypergraph, x, e2, p2));
}

/// Target-side twin of `lemma_renaming_source_entry`.
proof fn lemma_renaming_target_entry(f: OpenHypergraph, g: OpenHypergraph, pi: Seq<usize>,
    x: usize, e1: int, p1: int, e2: int, p2: int)
    requires
        f.wf(),
        renaming_ok(f, g, pi),
        x < f.node_count(),
        is_target_at(f.hypergraph, x, e1, p1),
        is_target_at(g.hypergraph, pi[x as int], e2, p2),
    ensures
        e1 == e2 && p1 == p2,
{
    lemma_renaming_target_occurrence(f, g, pi, x, e2, p2);
    assert(is_target_at(f.hypergraph, x, e2, p2));
}

/// Under a node renumbering the two edges at one position are compatible.
proof fn lemma_renaming_edge_compatible(f: OpenHypergraph, g: OpenHypergraph, pi: Seq<usize>,
    e1: int)
    requires
        f.wf(),
        node_renaming(f, g, pi),
        0 <= e1 < f.hypergraph.adjacency@.len(),
    ensures
        edge_compatible(f, g, e1, e1),
{
    assert(g.hypergraph.adjacency@[e1].sources@
        == f.hypergraph.adjacency@[e1].sources@.map_values(|v: usize| pi[v as int]));
    assert(g.hypergraph.adjacency@[e1].targets@
        == f.hypergraph.adjacency@[e1].targets@.map_values(|v: usize| pi[v as int]));
    assert forall|p: int| 0 <= p < f.hypergraph.adjacency@[e1].sources@.len() implies
        #[trigger] label_seq(g.hypergraph, g.hypergraph.adjacency@[e1].sources@)[p]
            == label_seq(f.hypergraph, f.hypergraph.adjacency@[e1].sources@)[p] by {
        let w = f.hypergraph.adjacency@[e1].sources@[p];
        assert(g.hypergraph.adjacency@[e1].sources@[p] == pi[w as int]);
        assert(g.hypergraph.nodes@[pi[w as int] as int] == f.hypergraph.nodes@[w as int]);
    }
    assert(label_seq(g.hypergraph, g.hypergraph.adjacency@[e1].sources@)
        =~= label_seq(f.hypergraph, f.hypergraph.adjacency@[e1].sources@));
    assert forall|p: int| 0 <= p < f.hypergraph.adjacency@[e1].targets@.len() implies
        #[trigger] label_seq(g.hypergraph, g.hypergraph.adjacency@[e1].targets@)[p]
            == label_seq(f.hypergraph, f.hypergraph.adjacency@[e1].targets@)[p] by {
        let w = f.hypergraph.adjacency@[e1].targets@[p];
        assert(g.hypergraph.adjacency@[e1].targets@[p] == pi[w as int]);
        assert(g.hypergraph.nodes@[pi[w as int] as int] == f.hypergraph.nodes@[w as int]);
    }
    assert(label_seq(g.hypergraph, g.hypergraph.adjacency@[e1].targets@)
        =~= label_seq(f.hypergraph, f.hypergraph.adjacency@[e1].targets@));
}

/// Some pair on the worklist carries `x` on its `f` side.
spec fn in_stack(s: Seq<(usize, usize)>, x: usize) -> bool {
    exists|idx: int| 0 <= idx < s.len() && (#[trigger] s[idx]).0 == x
}

/// A worklist that extends another keeps every `f`-side node of the
/// shorter one.
proof fn lemma_in_stack_extend(s1: Seq<(usize, usize)>, s2: Seq<(usize, usize)>, x: usize)
    requires
        in_stack(s1, x),
        s2.len() >= s1.len(),
        s2.take(s1.len() as int) == s1,
    ensures
        in_stack(s2, x),
{
    let idx = choose|idx: int| 0 <= idx < s1.len() && (#[trigger] s1[idx]).0 == x;
    assert(s2.take(s1.len() as int)[idx] == s2[idx]);
    assert((s2[idx]).0 == x);
}

/// Every worklist pair is in range and its `f` side is marked visited.
spec fn stack_ok(s: Seq<(usize, usize)>, f: OpenHypergraph, g: OpenHypergraph,
    visited: Seq<bool>) -> bool {
    forall|idx: int| 0 <= idx < s.len()
        ==> ((#[trigger] s[idx]).0 < f.node_count() && s[idx].1 < g.node_count()
            && visited[s[idx].0 as int])
}

/// Every assigned node is in range and carries the same label as its
/// partner.
spec fn nm_ok(nm: Seq<Option<usize>>, f: OpenHypergraph, g: OpenHypergraph) -> bool {
    forall|x: int| 0 <= x < nm.len()
        ==> ((#[trigger] nm[x]) matches Some(y)
            ==> y < g.node_count()
                && g.hypergraph.nodes@[y as int] == f.hypergraph.nodes@[x])
}

/// Every assigned edge is in range and type-compatible with its partner.
spec fn em_ok(em: Seq<Option<usize>>, f: OpenHypergraph, g: OpenHypergraph) -> bool {
    forall|j: int| 0 <= j < em.len()
        ==> ((#[trigger] em[j]) matches Some(j2)
            ==> j2 < g.edge_count() && edge_compatible(f, g, j, j2 as int))
}

/// Every node touching an assigned edge has been visited.
spec fn em_coverage(em: Seq<Option<usize>>, f: OpenHypergraph, visited: Seq<bool>) -> bool {
    forall|j: int, k: usize| 0 <= j < em.len() && k < f.node_count()
        && (#[trigger] em[j]) is Some && #[trigger] edge_touches(f.hypergraph, j, k)
        ==> visited[k as int]
}

/// Every visited node is either already assigned or still on the
/// worklist.
spec fn visited_ok(visited: Seq<bool>, nm: Seq<Option<usize>>, s: Seq<(usize, usize)>) -> bool {
    forall|x: int| 0 <= x < visited.len() && #[trigger] visited[x]
        ==> (nm[x] is Some || in_stack(s, x as usize))
}

/// An assigned node's structural obligations have been discharged: both
/// edges its index entries point at are assigned too.
spec fn obligations_ok(st: SearchState, nm: Seq<Option<usize>>, em: Seq<Option<usize>>) -> bool {
    forall|x: int| 0 <= x < nm.len() && (#[trigger] nm[x]) is Some
        ==> (match st.f_index.of_source@[x] {
                Some((e1, p1)) => em[e1 as int] is Some,
                None => true,
            } && match st.f_index.of_target@[x] {
                Some((e1, p1)) => em[e1 as int] is Some,
                None => true,
            })
}

/// Both interface lists are fully marked visited.
spec fn interfaces_marked(f: OpenHypergraph, visited: Seq<bool>) -> bool {
    &&& forall|p: int| 0 <= p < f.sources@.len()
        ==> visited[(#[trigger] f.sources@[p]) as int]
    &&& forall|p: int| 0 <= p < f.targets@.len()
        ==> visited[(#[trigger] f.targets@[p]) as int]
}

/// Under the renumbering `pi`, the search state is exactly on track: every
/// worklist pair and assignment follows `pi`, and edges map identically.
spec fn renaming_tracked(f: OpenHypergraph, g: OpenHypergraph, pi: Seq<usize>,
    s: Seq<(usize, usize)>, nm: Seq<Option<usize>>, em: Seq<Option<usize>>) -> bool {
    &&& forall|idx: int| 0 <= idx < s.len()
        ==> (#[trigger] s[idx]).1 == pi[s[idx].0 as int]
    &&& forall|x: int| 0 <= x < nm.len()
        ==> ((#[trigger] nm[x]) matches Some(y) ==> y == pi[x])
    &&& forall|j: int| 0 <= j < em.len()
        ==> ((#[trigger] em[j]) matches Some(j2) ==> j2 == j)
}

/// Flipping one `false` entry to `true` lowers the count by one.
proof fn lemma_count_false_update(s: Seq<bool>, i: int)
    requires
        0 <= i < s.len(),
        !s[i],
    ensures
        count_false(s.update(i, true)) == count_false(s) - 1,
    decreases s.len(),
{
    if i == s.len() - 1 {
        assert(s.update(i, true).drop_last() =~= s.drop_last());
        assert(s.update(i, true).last());
    } else {
        lemma_count_false_update(s.drop_last(), i);
        assert(s.update(i, true).drop_last() =~= s.drop_last().update(i, true));
        assert(s.update(i, true).last() == s.last());
    }
}

} // verus!
