use vstd::prelude::*;

verus! {

/// A constraint on which counterpart a node or edge may still be matched
/// with: either completely unconstrained, or one of an explicit list of
/// candidates.  Narrowing only ever removes candidates, so constraints can
/// be intersected in any order.
#[derive(Debug)]
pub enum Constraint {
    Any,
    Among(Vec<usize>),
}

/// Scan a list for a value.
fn contains_value(v: &Vec<usize>, x: usize) -> (r: bool)
    ensures
        r == v@.contains(x),
{
    let n = v.len();
    let mut i: usize = 0;
    while i < n
        invariant
            n == v@.len(),
            i <= n,
            forall|k: int| 0 <= k < i ==> #[trigger] v@[k] != x,
        decreases n - i,
    {
        if v[i] == x {
            return true;
        }
        i += 1;
    }
    assert(!v@.contains(x));
    false
}

impl Constraint {
    /// Which candidates the constraint still allows.
    pub open spec fn allows(self, y: usize) -> bool {
        match self {
            Constraint::Any => true,
            Constraint::Among(v) => v@.contains(y),
        }
    }

    /// The constraint that allows exactly one candidate.
    pub fn single(x: usize) -> (r: Constraint)
        ensures
            forall|y: usize| #[trigger] r.allows(y) <==> y == x,
    {
        let v = vec![x];
        assert(v@.len() == 1 && v@[0] == x);
        assert forall|y: usize| #[trigger] v@.contains(y) implies y == x by {
            let i = choose|i: int| 0 <= i < v@.len() && v@[i] == y;
        }
        assert(v@.contains(x));
        Constraint::Among(v)
    }

    /// Narrow the constraint to candidates that are also in `s`.
    pub fn intersection(&mut self, s: Vec<usize>)
        ensures
            forall|y: usize| #[trigger] final(self).allows(y)
                <==> (old(self).allows(y) && s@.contains(y)),
    {
        let replacement: Vec<usize> = match &*self {
            Constraint::Any => s,
            Constraint::Among(t) => {
                let mut out: Vec<usize> = Vec::new();
                let n = t.len();
                let mut i: usize = 0;
                while i < n
                    invariant
                        n == t@.len(),
                        i <= n,
                        forall|y: usize| #[trigger] out@.contains(y)
                            ==> (t@.contains(y) && s@.contains(y)),
                        forall|k: int| 0 <= k < i && s@.contains(#[trigger] t@[k])
                            ==> out@.contains(t@[k]),
                    decreases n - i,
                {
                    let ghost pre = out@;
                    let value = t[i];
                    if contains_value(&s, value) {
                        out.push(value);
                        proof {
                            assert(out@[out@.len() - 1] == value);
                            assert forall|y: usize| #[trigger] out@.contains(y) implies
                                (t@.contains(y) && s@.contains(y)) by {
                                let k = choose|k: int| 0 <= k < out@.len() && out@[k] == y;
                                if k < pre.len() {
                                    assert(pre[k] == y);
                                    assert(pre.contains(y));
                                } else {
                                    assert(y == value);
                                    assert(t@[i as int] == y);
                                }
                            }
                            assert forall|k: int| 0 <= k < i + 1
                                && s@.contains(#[trigger] t@[k]) implies
                                out@.contains(t@[k]) by {
                                if k < i {
                                    assert(pre.contains(t@[k]));
                                    let k2 = choose|k2: int| 0 <= k2 < pre.len()
                                        && pre[k2] == t@[k];
                                    assert(out@[k2] == t@[k]);
                                } else {
                                    assert(out@[out@.len() - 1] == t@[k]);
                                }
                            }
                        }
                    } else {
                        proof {
                            assert forall|k: int| 0 <= k < i + 1
                                && s@.contains(#[trigger] t@[k]) implies
                                out@.contains(t@[k]) by {
                                if k == i {
                                    assert(t@[k] == value);
                                    assert(!s@.contains(value));
                                }
                            }
                        }
                    }
                    i += 1;
                }
                proof {
                    assert forall|y: usize| t@.contains(y) && s@.contains(y) implies
                        #[trigger] out@.contains(y) by {
                        let k = choose|k: int| 0 <= k < t@.len() && t@[k] == y;
                        assert(s@.contains(t@[k]));
                    }
                }
                out
            },
        };
        *self = Constraint::Among(replacement);
    }

    /// Narrow the constraint to one candidate (or none, if it was already
    /// excluded).
    pub fn intersect_one(&mut self, x: usize)
        ensures
            forall|y: usize| #[trigger] final(self).allows(y)
                <==> (old(self).allows(y) && y == x),
    {
        let v = vec![x];
        assert(v@.len() == 1 && v@[0] == x);
        proof {
            assert forall|y: usize| #[trigger] v@.contains(y) implies y == x by {
                let i = choose|i: int| 0 <= i < v@.len() && v@[i] == y;
            }
            assert(v@.contains(x));
        }
        self.intersection(v);
    }

    /// Whether no candidate is left: a witness that the narrowing has
    /// become unsatisfiable.  `Any` is never empty.
    pub fn is_empty(&self) -> (r: bool)
        ensures
            r == !(exists|y: usize| self.allows(y)),
    {
        match self {
            Constraint::Any => {
                assert(self.allows(0usize));
                false
            },
            Constraint::Among(v) => {
                if v.len() == 0 {
                    assert forall|y: usize| !self.allows(y) by {
                        if v@.contains(y) {
                            let i = choose|i: int| 0 <= i < v@.len() && v@[i] == y;
                        }
                    }
                    true
                } else {
                    assert(v@.contains(v@[0]));
                    assert(self.allows(v@[0]));
                    false
                }
            },
        }
    }
}

} // verus!
