use vstd::prelude::*;
use vstd::multiset::Multiset;

use crate::hypergraph::Hypergraph;
use crate::hypergraph::OpenHypergraph;
use crate::hypergraph::label_seq;
use crate::hypergraph::source_labels;
use crate::hypergraph::target_labels;

verus! {

broadcast use
    vstd::multiset::group_multiset_axioms,
    vstd::seq_lib::group_to_multiset_ensures,
;

/// The cheap necessary conditions for isomorphism: equal node-label
/// multisets, equal edge-label multisets, and equal interface signatures.
/// Any true isomorphism preserves all four; failing any one proves
/// non-isomorphism.
pub open spec fn nogood_spec(f: OpenHypergraph, g: OpenHypergraph) -> bool {
    &&& f.hypergraph.nodes@.to_multiset() == g.hypergraph.nodes@.to_multiset()
    &&& f.hypergraph.edges@.to_multiset() == g.hypergraph.edges@.to_multiset()
    &&& source_labels(f) == source_labels(g)
    &&& target_labels(f) == target_labels(g)
}

/// Check that two vecs are equal once sorted (exact length and elements):
/// multiset equality, decided by matching each element of `x` against a
/// shrinking copy of `y`.
pub fn is_sorted_equal(x: &Vec<u64>, y: &Vec<u64>) -> (r: bool)
    ensures
        r == (x@.to_multiset() == y@.to_multiset()),
{
    if x.len() != y.len() {
        assert(x@.to_multiset() != y@.to_multiset()) by {
            x@.to_multiset_ensures();
            y@.to_multiset_ensures();
        }
        return false;
    }

    let n = x.len();
    let mut rem: Vec<u64> = Vec::new();
    let mut c: usize = 0;
    while c < n
        invariant
            n == y@.len(),
            c <= n,
            rem@ == y@.take(c as int),
        decreases n - c,
    {
        rem.push(y[c]);
        assert(rem@ =~= y@.take(c + 1));
        c += 1;
    }
    assert(rem@ =~= y@);

    let mut i: usize = 0;
    while i < n
        invariant
            n == x@.len(),
            n == y@.len(),
            i <= n,
            rem@.len() == n - i,
            x@.take(i as int).to_multiset().add(rem@.to_multiset()) == y@.to_multiset(),
        decreases n - i,
    {
        let needle = x[i];
        let mut j: usize = 0;
        let m = rem.len();
        let mut found: bool = false;
        let mut at: usize = 0;
        while j < m
            invariant
                m == rem@.len(),
                j <= m,
                !found ==> forall|k: int| 0 <= k < j ==> #[trigger] rem@[k] != needle,
                found ==> at < m && rem@[at as int] == needle,
            decreases m - j,
        {
            if rem[j] == needle {
                found = true;
                at = j;
                j = m;
            } else {
                j += 1;
            }
        }

        if !found {
            proof {
                // `needle` has run out in `rem`, so `x` holds strictly more
                // copies of it than `y` does.
                assert(!rem@.contains(needle));
                assert(rem@.to_multiset().count(needle) == 0);
                assert(x@ =~= x@.take(i as int) + x@.skip(i as int));
                vstd::seq_lib::lemma_multiset_commutative(x@.take(i as int), x@.skip(i as int));
                assert(x@.skip(i as int)[0] == needle);
                assert(x@.skip(i as int).contains(needle));
                assert(x@.skip(i as int).to_multiset().count(needle) > 0);
                assert(x@.to_multiset().count(needle)
                    > x@.take(i as int).to_multiset().count(needle));
                assert(y@.to_multiset().count(needle)
                    == x@.take(i as int).to_multiset().count(needle));
            }
            return false;
        }

        let ghost old_rem = rem@;
        rem.remove(at);
        proof {
            assert(old_rem.remove(at as int).to_multiset()
                == old_rem.to_multiset().remove(needle));
            assert(x@.take(i + 1) =~= x@.take(i as int).push(needle));
            assert(x@.take(i + 1).to_multiset()
                =~= x@.take(i as int).to_multiset().insert(needle));
            assert(old_rem.to_multiset().count(needle) > 0) by {
                assert(old_rem.contains(needle));
            }
            assert(x@.take(i + 1).to_multiset().add(rem@.to_multiset())
                =~= y@.to_multiset());
        }
        i += 1;
    }

    proof {
        assert(x@.take(n as int) =~= x@);
        assert(rem@ =~= Seq::<u64>::empty());
        assert(rem@.to_multiset() =~= Multiset::<u64>::empty());
        assert(x@.to_multiset() =~= y@.to_multiset());
    }
    true
}

/// Compare the labels that two id lists point at, position by position.
pub(crate) fn labels_equal(fh: &Hypergraph, f_ids: &Vec<usize>, gh: &Hypergraph, g_ids: &Vec<usize>) -> (r:
    bool)
    requires
        forall|p: int| 0 <= p < f_ids@.len() ==> (#[trigger] f_ids@[p]) < fh.nodes@.len(),
        forall|p: int| 0 <= p < g_ids@.len() ==> (#[trigger] g_ids@[p]) < gh.nodes@.len(),
    ensures
        r == (label_seq(*fh, f_ids@) == label_seq(*gh, g_ids@)),
{
    if f_ids.len() != g_ids.len() {
        assert(label_seq(*fh, f_ids@).len() != label_seq(*gh, g_ids@).len());
        return false;
    }
    let n = f_ids.len();
    let mut i: usize = 0;
    while i < n
        invariant
            n == f_ids@.len(),
            n == g_ids@.len(),
            i <= n,
            forall|p: int| 0 <= p < f_ids@.len() ==> (#[trigger] f_ids@[p]) < fh.nodes@.len(),
            forall|p: int| 0 <= p < g_ids@.len() ==> (#[trigger] g_ids@[p]) < gh.nodes@.len(),
            forall|p: int| 0 <= p < i
                ==> #[trigger] label_seq(*fh, f_ids@)[p] == label_seq(*gh, g_ids@)[p],
        decreases n - i,
    {
        if fh.nodes[f_ids[i]] != gh.nodes[g_ids[i]] {
            assert(label_seq(*fh, f_ids@)[i as int] != label_seq(*gh, g_ids@)[i as int]);
            return false;
        }
        assert(label_seq(*fh, f_ids@)[i as int] == label_seq(*gh, g_ids@)[i as int]);
        i += 1;
    }
    proof {
        assert(label_seq(*fh, f_ids@) =~= label_seq(*gh, g_ids@));
    }
    true
}

/// Rearranging a sequence along a bijection of its positions leaves its
/// multiset of elements unchanged.
pub proof fn lemma_permuted_multiset(a: Seq<u64>, b: Seq<u64>, pi: Seq<usize>)
    requires
        crate::permutation::is_permutation(pi),
        pi.len() == a.len(),
        a.len() <= usize::MAX,
        b.len() == a.len(),
        forall|i: int| 0 <= i < a.len() ==> b[#[trigger] pi[i] as int] == a[i],
    ensures
        a.to_multiset() == b.to_multiset(),
    decreases a.len(),
{
    if a.len() == 0 {
        assert(a =~= b);
    } else {
        let n = a.len() as int;
        let k = pi[n - 1] as int;
        let a1 = a.remove(n - 1);
        let b1 = b.remove(k);
        let pi1 = Seq::new((n - 1) as nat,
            |i: int| if pi[i] < k { pi[i] } else { (pi[i] - 1) as usize });

        assert(pi[n - 1] < n);
        assert forall|i: int| 0 <= i < n - 1 implies (#[trigger] pi1[i]) < n - 1 by {
            assert(pi[i] < n);
            assert(pi[i] != pi[n - 1]);
        }
        assert forall|i: int, j: int| 0 <= i < n - 1 && 0 <= j < n - 1 && i != j implies
            #[trigger] pi1[i] != #[trigger] pi1[j] by {
            assert(pi[i] != pi[j]);
            assert(pi[i] != pi[n - 1]);
            assert(pi[j] != pi[n - 1]);
        }
        assert forall|k1: usize| k1 < pi1.len() implies #[trigger] pi1.contains(k1) by {
            let tgt: usize = if (k1 as int) < k { k1 } else { (k1 + 1) as usize };
            assert(pi.contains(tgt));
            let i = choose|i: int| 0 <= i < pi.len() && pi[i] == tgt;
            assert(pi[n - 1] == k);
            assert(i != n - 1);
            assert(pi1[i] == k1);
        }
        assert(crate::permutation::is_permutation(pi1));

        assert forall|i: int| 0 <= i < n - 1 implies
            b1[#[trigger] pi1[i] as int] == a1[i] by {
            assert(b[pi[i] as int] == a[i]);
            assert(pi[i] != pi[n - 1]);
            if (pi[i] as int) < k {
                assert(b1[pi[i] as int] == b[pi[i] as int]);
            } else {
                assert(b1[pi[i] - 1] == b[pi[i] as int]);
            }
        }
        lemma_permuted_multiset(a1, b1, pi1);

        assert(b[pi[n - 1] as int] == a[n - 1]);
        assert(a1.to_multiset() == a.to_multiset().remove(a[n - 1]));
        assert(b1.to_multiset() == b.to_multiset().remove(b[k]));
        assert(a.to_multiset().count(a[n - 1]) > 0) by {
            assert(a.contains(a[n - 1]));
        }
        assert(b.to_multiset().count(b[k]) > 0) by {
            assert(b.contains(b[k]));
        }
        assert forall|v: u64| true implies
            #[trigger] a.to_multiset().count(v) == b.to_multiset().count(v) by {
            assert(a1.to_multiset().count(v) == b1.to_multiset().count(v));
            if v == a[n - 1] {
                assert(a.to_multiset().remove(v).count(v) == a.to_multiset().count(v) - 1);
                assert(b.to_multiset().remove(v).count(v) == b.to_multiset().count(v) - 1);
            } else {
                assert(a.to_multiset().remove(a[n - 1]).count(v) == a.to_multiset().count(v));
                assert(b.to_multiset().remove(b[k]).count(v) == b.to_multiset().count(v));
            }
        }
        assert(a.to_multiset() =~= b.to_multiset());
    }
}

/// The filter is sound with respect to relabeling: a copy of `f` with node
/// identities renumbered along any bijection passes every nogood check.
pub proof fn lemma_renaming_nogood(f: OpenHypergraph, g: OpenHypergraph, pi: Seq<usize>)
    requires
        f.wf(),
        f.node_count() <= usize::MAX,
        crate::hypergraph::node_renaming(f, g, pi),
    ensures
        nogood_spec(f, g),
{
    lemma_permuted_multiset(f.hypergraph.nodes@, g.hypergraph.nodes@, pi);
    assert(f.hypergraph.edges@.to_multiset() == g.hypergraph.edges@.to_multiset());
    assert forall|p: int| 0 <= p < f.sources@.len() implies
        #[trigger] source_labels(g)[p] == source_labels(f)[p] by {
        assert(g.sources@[p] == pi[f.sources@[p] as int]);
        assert(g.hypergraph.nodes@[pi[f.sources@[p] as int] as int]
            == f.hypergraph.nodes@[f.sources@[p] as int]);
    }
    assert(source_labels(f) =~= source_labels(g));
    assert forall|p: int| 0 <= p < f.targets@.len() implies
        #[trigger] target_labels(g)[p] == target_labels(f)[p] by {
        assert(g.targets@[p] == pi[f.targets@[p] as int]);
        assert(g.hypergraph.nodes@[pi[f.targets@[p] as int] as int]
            == f.hypergraph.nodes@[f.targets@[p] as int]);
    }
    assert(target_labels(f) =~= target_labels(g));
}

/// The pre-filter: `Some(())` means "inconclusive, proceed to search";
/// `None` is a proof of non-isomorphism.
pub(crate) fn nogood(f: &OpenHypergraph, g: &OpenHypergraph) -> (r: Option<()>)
    requires
        f.wf(),
        g.wf(),
    ensures
        r is Some <==> nogood_spec(*f, *g),
{
    if !is_sorted_equal(&f.hypergraph.nodes, &g.hypergraph.nodes) {
        return None;
    }

    if !is_sorted_equal(&f.hypergraph.edges, &g.hypergraph.edges) {
        return None;
    }

    // check interfaces are equal sizes and types
    if !labels_equal(&f.hypergraph, &f.sources, &g.hypergraph, &g.sources) {
        return None;
    }

    if !labels_equal(&f.hypergraph, &f.targets, &g.hypergraph, &g.targets) {
        return None;
    }

    Some(())
}

} // verus!
