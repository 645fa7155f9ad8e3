use vstd::prelude::*;
use crate::dto::NTupleOutput;
use crate::interval::Interval;

verus! {

/// Drops later copies of equal elements, keeping the first of each.
pub trait UniquesVec<T> {
    fn uniques(&self) -> Vec<T>;
}

/// Some element of `s` looks like `x`.
pub open spec fn holds_view(s: Seq<NTupleOutput>, x: Seq<(Seq<char>, crate::dto::Output<Seq<Interval>>)>) -> bool {
    exists|j: int| 0 <= j < s.len() && (#[trigger] s[j])@ == x
}

/// `idx` picks, in increasing order, positions of `v` holding the first copy
/// of a value, and `r` holds those values.
pub open spec fn first_copies(r: Seq<NTupleOutput>, v: Seq<NTupleOutput>, idx: Seq<int>) -> bool {
    &&& idx.len() == r.len()
    &&& forall|j: int| 0 <= j < idx.len() ==> 0 <= #[trigger] idx[j] < v.len() && r[j]@ == v[idx[j]]@
    &&& forall|j: int, t: int| 0 <= j < idx.len() && 0 <= t < idx[j] ==> (#[trigger] v[t])@ != v[#[trigger] idx[j]]@
    &&& forall|i: int, j: int| 0 <= i < j < idx.len() ==> #[trigger] idx[i] < #[trigger] idx[j]
}

pub open spec fn distinct_views(s: Seq<NTupleOutput>) -> bool {
    forall|i: int, j: int| 0 <= i < j < s.len() ==> (#[trigger] s[i])@ != (#[trigger] s[j])@
}

/// The distinct test vectors of `v`: the first copy of each, in order of
/// first appearance.
#[verifier::loop_isolation(false)]
pub fn unique_outputs(v: &Vec<NTupleOutput>) -> (r: Vec<NTupleOutput>)
    ensures
        distinct_views(r@),
        forall|i: int| 0 <= i < v@.len() ==> holds_view(r@, (#[trigger] v@[i])@),
        forall|j: int| 0 <= j < r@.len() ==> holds_view(v@, (#[trigger] r@[j])@),
        exists|idx: Seq<int>| first_copies(r@, v@, idx),
{
    let ghost mut idx: Seq<int> = Seq::empty();
    let mut uniques: Vec<NTupleOutput> = Vec::new();
    let n = v.len();
    for k in 0..n
        invariant
            n == v@.len(),
            distinct_views(uniques@),
            forall|i: int| 0 <= i < k ==> holds_view(uniques@, (#[trigger] v@[i])@),
            forall|j: int| 0 <= j < uniques@.len() ==> holds_view(v@, (#[trigger] uniques@[j])@),
            first_copies(uniques@, v@, idx),
            forall|j: int| 0 <= j < idx.len() ==> #[trigger] idx[j] < k,
    {
        let x = &v[k];
        let mut contains = false;
        let m = uniques.len();
        let mut w: usize = 0;
        while w < m
            invariant
                m == uniques@.len(),
                w <= m,
                contains ==> holds_view(uniques@, x@),
                !contains ==> forall|j: int| 0 <= j < w ==> (#[trigger] uniques@[j])@ != x@,
            decreases m - w,
        {
            if uniques[w].equals(x) {
                contains = true;
            }
            w = w + 1;
        }
        let ghost old_u = uniques@;
        if !contains {
            let c = x.duplicate();
            uniques.push(c);
            proof {
                let old_idx = idx;
                idx = idx.push(k as int);
                assert forall|t: int| 0 <= t < k implies v@[t]@ != v@[k as int]@ by {
                    assert(v@[k as int] == *x);
                    let j = choose|j: int| 0 <= j < old_u.len() && (#[trigger] old_u[j])@ == v@[t]@;
                }
                assert forall|j: int| 0 <= j < idx.len() implies 0 <= #[trigger] idx[j] < v@.len() && uniques@[j]@ == v@[idx[j]]@ by {
                    if j < old_idx.len() {
                        assert(uniques@[j] == old_u[j]);
                    } else {
                        assert(v@[k as int] == *x);
                    }
                }
                assert(uniques@[m as int] == c);
                assert(holds_view(uniques@, x@));
                assert(holds_view(v@, c@)) by {
                    assert(v@[k as int] == *x);
                }
                assert forall|i: int| 0 <= i < k + 1 implies holds_view(uniques@, (#[trigger] v@[i])@) by {
                    if i < k {
                        let j = choose|j: int| 0 <= j < old_u.len() && (#[trigger] old_u[j])@ == v@[i]@;
                        assert(uniques@[j] == old_u[j]);
                    } else {
                        assert(v@[k as int] == *x);
                    }
                }
                assert forall|j: int| 0 <= j < uniques@.len() implies holds_view(v@, (#[trigger] uniques@[j])@) by {
                    if j < m {
                        assert(uniques@[j] == old_u[j]);
                    }
                }
                assert forall|i: int, j: int| 0 <= i < j < uniques@.len() implies (#[trigger] uniques@[i])@ != (#[trigger] uniques@[j])@ by {
                    assert(uniques@[i] == old_u[i]);
                    if j < m {
                        assert(uniques@[j] == old_u[j]);
                    }
                }
            }
        } else {
            proof {
                assert(v@[k as int] == *x);
            }
        }
    }
    proof {
        assert(first_copies(uniques@, v@, idx));
    }
    uniques
}

impl UniquesVec<NTupleOutput> for Vec<NTupleOutput> {
    fn uniques(&self) -> (r: Vec<NTupleOutput>)
        ensures
            distinct_views(r@),
            forall|i: int| 0 <= i < self@.len() ==> holds_view(r@, (#[trigger] self@[i])@),
            forall|j: int| 0 <= j < r@.len() ==> holds_view(self@, (#[trigger] r@[j])@),
            exists|idx: Seq<int>| first_copies(r@, self@, idx),
    {
        unique_outputs(self)
    }
}

} // verus!
