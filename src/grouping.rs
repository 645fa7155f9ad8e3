use vstd::prelude::*;
use crate::dto::{tuple_meet, Output};
use crate::interval::Interval;

verus! {

/// A test case by node index.
pub type CaseOf = spec_fn(int) -> Seq<(Seq<char>, Output<Interval>)>;

/// `groups` gives each node of the result (`rn`, its cases `rc`) the nodes
/// of the start (`gn`, `gc`) merged into it: the groups are non-empty, lie in
/// `gn`, cover it, and no node of `gn` is in two groups. A node in `kept` is
/// a node of the start left as it was; every other node of the result stands
/// for at least two nodes of the start, and one that stands for exactly two
/// holds the intersection of their test cases.
#[verifier::opaque]
pub open spec fn merged_sets(rn: Set<int>, rc: CaseOf, gn: Set<int>, gc: CaseOf, groups: Map<int, Set<int>>, kept: Set<int>) -> bool {
    &&& groups.dom() == rn
    &&& forall|i: int, o: int| groups.contains_key(i) && #[trigger] groups[i].contains(o) ==> gn.contains(o)
    &&& forall|i: int| #[trigger] groups.contains_key(i) ==> exists|o: int| groups[i].contains(o)
    &&& forall|i: int, j: int, o: int|
        groups.contains_key(i) && groups.contains_key(j) && #[trigger] groups[i].contains(o) && #[trigger] groups[j].contains(o) ==> i == j
    &&& forall|o: int| #[trigger] gn.contains(o) ==> exists|i: int| #[trigger] groups.contains_key(i) && groups[i].contains(o)
    &&& forall|i: int| #[trigger] kept.contains(i) ==> groups.contains_key(i) && groups[i] == set![i] && rc(i) == gc(i)
    &&& forall|i: int|
        #[trigger] groups.contains_key(i) && !kept.contains(i) ==> exists|o1: int, o2: int|
            o1 != o2 && groups[i].contains(o1) && groups[i].contains(o2)
    &&& forall|i: int, o1: int, o2: int|
        #![trigger groups[i].contains(o1), groups[i].contains(o2)]
        groups.contains_key(i) && o1 != o2 && groups[i].contains(o1) && groups[i].contains(o2) && (forall|o: int|
            #[trigger] groups[i].contains(o) ==> o == o1 || o == o2) ==> rc(i) == tuple_meet(gc(o1), gc(o2))
            || rc(i) == tuple_meet(gc(o2), gc(o1))
}

pub proof fn lemma_groups_start(n: Set<int>, rc: CaseOf, gc: CaseOf)
    requires
        forall|i: int| #[trigger] n.contains(i) ==> rc(i) == gc(i),
    ensures
        merged_sets(n, rc, n, gc, Map::new(|i: int| n.contains(i), |i: int| set![i]), n),
{
    reveal(merged_sets);
    let groups = Map::new(|i: int| n.contains(i), |i: int| set![i]);
    assert(groups.dom() =~= n);
    assert forall|i: int| #[trigger] groups.contains_key(i) implies exists|o: int| groups[i].contains(o) by {
        assert(groups[i].contains(i));
    }
    assert forall|o: int| #[trigger] n.contains(o) implies exists|i: int| #[trigger] groups.contains_key(i) && groups[i].contains(o) by {
        assert(groups.contains_key(o) && groups[o].contains(o));
    }

}

pub proof fn lemma_kept(rn: Set<int>, rc: CaseOf, gn: Set<int>, gc: CaseOf, groups: Map<int, Set<int>>, kept: Set<int>)
    requires
        merged_sets(rn, rc, gn, gc, groups, kept),
    ensures
        forall|i: int| #[trigger] kept.contains(i) ==> rc(i) == gc(i),
{
    reveal(merged_sets);
}

pub proof fn lemma_merge_groups(
    bn: Set<int>,
    bc: CaseOf,
    an: Set<int>,
    ac: CaseOf,
    gn: Set<int>,
    gc: CaseOf,
    groups: Map<int, Set<int>>,
    kept: Set<int>,
    a: int,
    b: int,
    r: int,
)
    requires
        merged_sets(bn, bc, gn, gc, groups, kept),
        a != b,
        bn.contains(a),
        bn.contains(b),
        an == bn.remove(a).remove(b).insert(r),
        !bn.contains(r),
        forall|i: int| #[trigger] bn.contains(i) && i != a && i != b ==> ac(i) == bc(i),
        ac(r) == tuple_meet(bc(a), bc(b)),
    ensures
        merged_sets(an, ac, gn, gc, groups.remove(a).remove(b).insert(r, groups[a] + groups[b]), kept.remove(a).remove(b)),
{
    reveal(merged_sets);
    let ng = groups.remove(a).remove(b).insert(r, groups[a] + groups[b]);
    let nk = kept.remove(a).remove(b);
    assert(ng.dom() =~= an);
    assert(groups.contains_key(a) && groups.contains_key(b));
    assert forall|i: int, o: int| ng.contains_key(i) && #[trigger] ng[i].contains(o) implies gn.contains(o) by {
        if i == r {
            if groups[a].contains(o) {
            } else {
                assert(groups[b].contains(o));
            }
        } else {
            assert(groups.contains_key(i) && groups[i].contains(o));
        }
    }
    assert forall|i: int| #[trigger] ng.contains_key(i) implies exists|o: int| ng[i].contains(o) by {
        if i == r {
            let o = choose|o: int| groups[a].contains(o);
            assert(ng[i].contains(o));
        } else {
            assert(groups.contains_key(i));
            let o = choose|o: int| groups[i].contains(o);
            assert(ng[i].contains(o));
        }
    }
    assert forall|i: int, j: int, o: int|
        ng.contains_key(i) && ng.contains_key(j) && #[trigger] ng[i].contains(o) && #[trigger] ng[j].contains(o) implies i == j by {
        let oi = if i == r { if groups[a].contains(o) { a } else { b } } else { i };
        let oj = if j == r { if groups[a].contains(o) { a } else { b } } else { j };
        assert(groups.contains_key(oi) && groups[oi].contains(o));
        assert(groups.contains_key(oj) && groups[oj].contains(o));
        assert(oi == oj);
    }
    assert forall|o: int| #[trigger] gn.contains(o) implies exists|i: int| #[trigger] ng.contains_key(i) && ng[i].contains(o) by {
        let i = choose|i: int| #[trigger] groups.contains_key(i) && groups[i].contains(o);
        if i == a || i == b {
            assert(ng.contains_key(r) && ng[r].contains(o));
        } else {
            assert(bn.contains(i));
            assert(i != r);
            assert(ng.contains_key(i) && ng[i].contains(o));
        }
    }
    assert forall|i: int| #[trigger] nk.contains(i) implies ng.contains_key(i) && ng[i] == set![i] && ac(i) == gc(i) by {
        assert(kept.contains(i));
        assert(groups.contains_key(i));
        assert(bn.contains(i));
        assert(i != r);
    }
    assert forall|i: int| #[trigger] ng.contains_key(i) && !nk.contains(i) implies exists|o1: int, o2: int|
        o1 != o2 && ng[i].contains(o1) && ng[i].contains(o2) by {
        if i == r {
            let o1 = choose|o: int| groups[a].contains(o);
            let o2 = choose|o: int| groups[b].contains(o);
            if o1 == o2 {
                assert(groups[a].contains(o1) && groups[b].contains(o1));
            }
            assert(ng[i].contains(o1) && ng[i].contains(o2));
        } else {
            assert(groups.contains_key(i));
            assert(!kept.contains(i));
            let (o1, o2) = choose|o1: int, o2: int| o1 != o2 && groups[i].contains(o1) && groups[i].contains(o2);
            assert(ng[i].contains(o1) && ng[i].contains(o2));
        }
    }
    assert forall|i: int, o1: int, o2: int|
        #![trigger ng[i].contains(o1), ng[i].contains(o2)]
        ng.contains_key(i) && o1 != o2 && ng[i].contains(o1) && ng[i].contains(o2) && (forall|o: int|
            #[trigger] ng[i].contains(o) ==> o == o1 || o == o2) implies ac(i) == tuple_meet(gc(o1), gc(o2))
            || ac(i) == tuple_meet(gc(o2), gc(o1)) by {
        if i == r {
            let x = choose|o: int| groups[a].contains(o);
            let y = choose|o: int| groups[b].contains(o);
            assert(ng[i].contains(x) && ng[i].contains(y));
            assert(x != y) by {
                if x == y {
                    assert(groups[a].contains(x) && groups[b].contains(x));
                }
            }
            assert forall|z: int| #[trigger] groups[a].contains(z) implies z == x by {
                assert(ng[i].contains(z));
                if z != x {
                    assert(z == y);
                    assert(groups[b].contains(z));
                }
            }
            assert forall|z: int| #[trigger] groups[b].contains(z) implies z == y by {
                assert(ng[i].contains(z));
                if z != y {
                    assert(z == x);
                    assert(groups[a].contains(z));
                }
            }
            if !kept.contains(a) {
                let (p1, p2) = choose|p1: int, p2: int| p1 != p2 && groups[a].contains(p1) && groups[a].contains(p2);
            }
            if !kept.contains(b) {
                let (p1, p2) = choose|p1: int, p2: int| p1 != p2 && groups[b].contains(p1) && groups[b].contains(p2);
            }
            assert(kept.contains(a) && kept.contains(b));
            assert(groups[a] == set![a]);
            assert(groups[b] == set![b]);
            assert(groups[a].contains(a));
            assert(groups[b].contains(b));
            assert(x == a && y == b);
        } else {
            assert(groups.contains_key(i));
            assert(bn.contains(i));
            assert forall|o: int| #[trigger] groups[i].contains(o) implies o == o1 || o == o2 by {
                assert(ng[i].contains(o));
            }
        }
    }
}

} // verus!
