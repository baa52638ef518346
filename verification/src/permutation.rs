use vstd::prelude::*;

verus! {

/// A sequence of length `n` is a permutation when it is a bijection on
/// `{0, ..., n-1}`: every entry is in range, no entry repeats, and every
/// value in range is hit.  The empty sequence is the bijection on the
/// empty set.
pub open spec fn is_permutation(s: Seq<usize>) -> bool {
    &&& forall|i: int| 0 <= i < s.len() ==> (#[trigger] s[i]) < s.len()
    &&& forall|i: int, j: int| 0 <= i < s.len() && 0 <= j < s.len() && i != j
        ==> #[trigger] s[i] != #[trigger] s[j]
    &&& forall|k: usize| k < s.len() ==> #[trigger] s.contains(k)
}

/// The sequence `0, 1, ..., n-1`.
pub open spec fn identity_seq(n: nat) -> Seq<usize> {
    Seq::new(n, |i: int| i as usize)
}

/// The sequence `0, 1, ..., n-1` is a bijection on `{0, ..., n-1}`.
pub proof fn lemma_identity_seq_permutation(n: nat)
    requires
        n <= usize::MAX,
    ensures
        is_permutation(identity_seq(n)),
{
    let s = identity_seq(n);
    assert(forall|i: int| 0 <= i < n ==> #[trigger] s[i] == i as usize);
    assert forall|k: usize| k < s.len() implies #[trigger] s.contains(k) by {
        assert(s[k as int] == k);
    }
}

/// A validated bijection on `{0, ..., n-1}`.  Values of this type can only
/// be built through `new` and `identity`, so the bijection invariant holds
/// of every `Permutation` in existence.
#[derive(Debug)]
pub struct Permutation {
    values: Vec<usize>,
}

impl View for Permutation {
    type V = Seq<usize>;

    closed spec fn view(&self) -> Seq<usize> {
        self.values@
    }
}

impl Permutation {
    #[verifier::type_invariant]
    pub open spec fn bijective(self) -> bool {
        is_permutation(self@)
    }

    /// Validates that `values` is a bijection on `{0, ..., len-1}` in one
    /// linear pass over a "seen" array; returns `None` on an out-of-range
    /// value or a duplicate.
    pub fn new(values: Vec<usize>) -> (r: Option<Permutation>)
        ensures
            r is Some <==> is_permutation(values@),
            r matches Some(p) ==> p@ == values@,
    {
        if values.is_empty() {
            assert(is_permutation(values@));
            return Some(Permutation { values });
        }

        let n = values.len();
        let mut seen: Vec<bool> = vec![false; n];
        assert(forall|k: int| 0 <= k < n ==> !seen@[k]);

        let mut idx: usize = 0;
        while idx < n
            invariant
                n == values@.len(),
                seen@.len() == n,
                idx <= n,
                forall|i: int| 0 <= i < idx ==> (#[trigger] values@[i]) < n,
                forall|i: int, j: int| 0 <= i < idx && 0 <= j < idx && i != j
                    ==> #[trigger] values@[i] != #[trigger] values@[j],
                forall|k: int| 0 <= k < n
                    ==> (#[trigger] seen@[k] <==> exists|i: int|
                        0 <= i < idx && #[trigger] values@[i] == k),
            decreases n - idx,
        {
            let value = values[idx];
            if value >= n || seen[value] {
                proof {
                    if value < n {
                        // a duplicate: some earlier index already carries `value`
                        assert(!is_permutation(values@)) by {
                            let i = choose|i: int| 0 <= i < idx && values@[i] == value;
                            assert(values@[i] == values@[idx as int]);
                        }
                    }
                }
                return None;
            }
            seen[value] = true;
            idx += 1;
        }

        let mut k: usize = 0;
        while k < n
            invariant
                n == values@.len(),
                seen@.len() == n,
                k <= n,
                forall|i: int| 0 <= i < n ==> (#[trigger] values@[i]) < n,
                forall|i: int, j: int| 0 <= i < n && 0 <= j < n && i != j
                    ==> #[trigger] values@[i] != #[trigger] values@[j],
                forall|j: int| 0 <= j < n
                    ==> (#[trigger] seen@[j] <==> exists|i: int|
                        0 <= i < n && #[trigger] values@[i] == j),
                forall|j: int| 0 <= j < k ==> #[trigger] seen@[j],
            decreases n - k,
        {
            if !seen[k] {
                proof {
                    // no entry carries the value `k`, so the map is not onto
                    if is_permutation(values@) {
                        assert(values@.contains(k));
                        let i = choose|i: int| 0 <= i < values@.len() && values@[i] == k;
                        assert(seen@[k as int]);
                    }
                }
                return None;
            }
            k += 1;
        }

        proof {
            assert forall|j: usize| j < n implies values@.contains(j) by {
                assert(seen@[j as int]);
                let i = choose|i: int| 0 <= i < n && values@[i] == j;
                assert(values@[i] == j);
            }
            assert(is_permutation(values@));
        }
        Some(Permutation { values })
    }

    /// The identity bijection `i |-> i` on `{0, ..., size-1}`.
    pub fn identity(size: usize) -> (r: Permutation)
        ensures
            r@.len() == size,
            forall|i: int| 0 <= i < size ==> #[trigger] r@[i] == i,
    {
        let mut values: Vec<usize> = Vec::new();
        let mut i: usize = 0;
        while i < size
            invariant
                i <= size,
                values@.len() == i,
                forall|j: int| 0 <= j < i ==> #[trigger] values@[j] == j,
            decreases size - i,
        {
            values.push(i);
            i += 1;
        }
        proof {
            assert forall|k: usize| k < size implies values@.contains(k) by {
                assert(values@[k as int] == k);
            }
            assert(is_permutation(values@));
        }
        Permutation { values }
    }

    pub fn len(&self) -> (r: usize)
        ensures
            r == self@.len(),
    {
        self.values.len()
    }

    /// The image of `i`: defined only for `i < len`.
    pub fn index(&self, i: usize) -> (r: usize)
        requires
            i < self@.len(),
        ensures
            r == self@[i as int],
            r < self@.len(),
    {
        proof {
            use_type_invariant(self);
        }
        self.values[i]
    }
}

impl PartialEq for Permutation {
    /// Equality is by value: same length and same image at every index.
    fn eq(&self, other: &Permutation) -> (r: bool) {
        let r = vec_usize_eq(&self.values, &other.values);
        proof {
            if self.values@ == other.values@ {
                assert(self@ == other@);
            }
        }
        r
    }
}

impl Eq for Permutation {}

impl vstd::std_specs::cmp::PartialEqSpecImpl for Permutation {
    open spec fn obeys_eq_spec() -> bool {
        true
    }

    open spec fn eq_spec(&self, other: &Permutation) -> bool {
        self@ == other@
    }
}

/// Element-wise comparison of two integer vectors.
pub(crate) fn vec_usize_eq(x: &Vec<usize>, y: &Vec<usize>) -> (r: bool)
    ensures
        r == (x@ == y@),
{
    if x.len() != y.len() {
        assert(x@ != y@);
        return false;
    }
    let n = x.len();
    let mut i: usize = 0;
    while i < n
        invariant
            n == x@.len(),
            n == y@.len(),
            i <= n,
            forall|j: int| 0 <= j < i ==> #[trigger] x@[j] == y@[j],
        decreases n - i,
    {
        if x[i] != y[i] {
            assert(x@ != y@);
            return false;
        }
        i += 1;
    }
    proof {
        assert(x@ =~= y@);
    }
    true
}

} // verus!
