use vstd::prelude::*;

verus! {

/// Negative infinity on the fixed-point number line.
pub const NEG_INFINITY: i64 = i64::MIN;

/// Positive infinity on the fixed-point number line.
pub const INFINITY: i64 = i64::MAX;

/// Values that can be tested for, and cut down to, a common part.
pub trait Intersectable: Sized {
    fn intersects_with(&self, other: &Self) -> bool;

    fn intersect(&self, other: &Self) -> Option<Self>;
}

/// Values that can be joined into a union.
pub trait Unionable<TOther, TResult> {
    fn union(&self, other: &TOther) -> TResult;
}

/// Whether an endpoint belongs to its interval.
#[derive(Debug, PartialEq, Eq, Structural, Clone, Copy)]
pub enum Boundary {
    Open,
    Closed,
}

impl Boundary {
    pub open spec fn flipped(self) -> Boundary {
        match self {
            Boundary::Open => Boundary::Closed,
            Boundary::Closed => Boundary::Open,
        }
    }

    /// The other kind of boundary.
    pub fn inverse(&self) -> (r: Boundary)
        ensures
            r == self.flipped(),
    {
        match self {
            Boundary::Open => Boundary::Closed,
            Boundary::Closed => Boundary::Open,
        }
    }
}

#[derive(Debug)]
pub enum IntervalError {
    LoIsGreaterThanHi,
    /// A finite value or a precision lies beyond what the fixed-point
    /// derivations can step over without overflow.
    OutOfRange,
}

/// One interval between `lo` and `hi`, each end open or closed.
#[derive(Debug, PartialEq, Eq, Structural, Clone, Copy)]
pub struct Interval {
    pub lo_boundary: Boundary,
    pub lo: i64,
    pub hi: i64,
    pub hi_boundary: Boundary,
}

impl Interval {
    /// `lo <= hi`, and an infinite side is open.
    pub open spec fn wf(self) -> bool {
        &&& self.lo <= self.hi
        &&& self.lo == NEG_INFINITY ==> self.lo_boundary == Boundary::Open
        &&& self.hi == INFINITY ==> self.hi_boundary == Boundary::Open
    }

    /// Well formed and holding at least one value.
    pub open spec fn proper(self) -> bool {
        self.wf() && !self.empty()
    }

    pub open spec fn empty(self) -> bool {
        self.lo == self.hi && (self.lo_boundary == Boundary::Open || self.hi_boundary
            == Boundary::Open)
    }

    /// Membership of the value `y / 2`. Halving the grid puts a point strictly
    /// between any two distinct endpoints, so a non-empty interval always holds
    /// one.
    pub open spec fn has(self, y: int) -> bool {
        &&& (2 * self.lo < y || (2 * self.lo == y && self.lo_boundary == Boundary::Closed))
        &&& (y < 2 * self.hi || (y == 2 * self.hi && self.hi_boundary == Boundary::Closed))
    }

    pub open spec fn contains_spec(self, x: int) -> bool {
        self.has(2 * x)
    }

    pub open spec fn intersects_spec(self, o: Interval) -> bool {
        !((self.lo > o.hi || o.lo > self.hi) || (self.lo == o.hi && (self.lo_boundary
            == Boundary::Open || o.hi_boundary == Boundary::Open)) || (o.lo == self.hi && (
        o.lo_boundary == Boundary::Open || self.hi_boundary == Boundary::Open)))
    }

    /// `a`'s lower end sorts before or with `b`'s: a closed end is lower than an
    /// open one at the same value.
    pub open spec fn lo_le(a: Interval, b: Interval) -> bool {
        a.lo < b.lo || (a.lo == b.lo && (a.lo_boundary == Boundary::Closed || b.lo_boundary
            == Boundary::Open))
    }

    /// `a`'s upper end sorts before or with `b`'s: an open end is lower than a
    /// closed one at the same value.
    pub open spec fn hi_le(a: Interval, b: Interval) -> bool {
        a.hi < b.hi || (a.hi == b.hi && (a.hi_boundary == Boundary::Open || b.hi_boundary
            == Boundary::Closed))
    }

    pub open spec fn meet(self, o: Interval) -> Interval {
        let l = if Interval::lo_le(o, self) { self } else { o };
        let h = if Interval::hi_le(self, o) { self } else { o };
        Interval { lo_boundary: l.lo_boundary, lo: l.lo, hi: h.hi, hi_boundary: h.hi_boundary }
    }

    pub open spec fn built(lo_boundary: Boundary, lo: i64, hi: i64, hi_boundary: Boundary) -> Interval {
        Interval {
            lo_boundary: if lo == NEG_INFINITY { Boundary::Open } else { lo_boundary },
            lo,
            hi,
            hi_boundary: if hi == INFINITY { Boundary::Open } else { hi_boundary },
        }
    }

    /// Everything, from negative to positive infinity.
    pub open spec fn full_line() -> Interval {
        Interval { lo_boundary: Boundary::Open, lo: NEG_INFINITY, hi: INFINITY, hi_boundary: Boundary::Open }
    }

    /// Builds an interval; an infinite side is made open whatever was asked.
    pub fn new(lo_boundary: Boundary, lo: i64, hi: i64, hi_boundary: Boundary) -> (r: Result<
        Interval,
        IntervalError,
    >)
        ensures
            lo > hi <==> r is Err,
            r matches Err(e) ==> e is LoIsGreaterThanHi,
            r matches Ok(i) ==> i == Interval::built(lo_boundary, lo, hi, hi_boundary) && i.wf(),
    {
        if lo > hi {
            Err(IntervalError::LoIsGreaterThanHi)
        } else {
            Ok(
                Interval {
                    lo_boundary: if lo == NEG_INFINITY {
                        Boundary::Open
                    } else {
                        lo_boundary
                    },
                    lo,
                    hi,
                    hi_boundary: if hi == INFINITY {
                        Boundary::Open
                    } else {
                        hi_boundary
                    },
                },
            )
        }
    }

    pub fn new_closed(lo: i64, hi: i64) -> (r: Result<Interval, IntervalError>)
        ensures
            lo > hi <==> r is Err,
            r matches Err(e) ==> e is LoIsGreaterThanHi,
            r matches Ok(i) ==> i == Interval::built(Boundary::Closed, lo, hi, Boundary::Closed)
                && i.wf(),
    {
        Interval::new(Boundary::Closed, lo, hi, Boundary::Closed)
    }

    /// The single point `[point, point]`.
    pub fn new_closed_point(point: i64) -> (r: Interval)
        ensures
            r == (Interval { lo_boundary: Boundary::Closed, lo: point, hi: point, hi_boundary: Boundary::Closed }),
    {
        Interval { lo_boundary: Boundary::Closed, lo: point, hi: point, hi_boundary: Boundary::Closed }
    }

    /// A single point with an open side, holding nothing.
    pub fn is_empty(&self) -> (r: bool)
        ensures
            r == self.empty(),
    {
        self.lo == self.hi && (self.lo_boundary == Boundary::Open || self.hi_boundary
            == Boundary::Open)
    }

    pub fn contains_point(&self, point: i64) -> (r: bool)
        requires
            self.wf(),
        ensures
            r == self.contains_spec(point as int),
    {
        !self.is_empty() && ((self.lo < point && point < self.hi) || (self.lo == point
            && self.lo_boundary == Boundary::Closed) || (self.hi == point && self.hi_boundary
            == Boundary::Closed))
    }

    fn lo_cmp_le(&self, other: &Interval) -> (r: bool)
        ensures
            r == Interval::lo_le(*self, *other),
    {
        self.lo < other.lo || (self.lo == other.lo && (self.lo_boundary == Boundary::Closed
            || other.lo_boundary == Boundary::Open))
    }

    fn hi_cmp_le(&self, other: &Interval) -> (r: bool)
        ensures
            r == Interval::hi_le(*self, *other),
    {
        self.hi < other.hi || (self.hi == other.hi && (self.hi_boundary == Boundary::Open
            || other.hi_boundary == Boundary::Closed))
    }

    /// False only where one lies past the other; a shared endpoint counts when
    /// it is closed on both sides.
    pub fn intersects_with(&self, other: &Interval) -> (r: bool)
        ensures
            r == self.intersects_spec(*other),
    {
        let doesnt_intersect = (self.lo > other.hi || other.lo > self.hi) || (self.lo
            == other.hi && (self.lo_boundary == Boundary::Open || other.hi_boundary
            == Boundary::Open)) || (other.lo == self.hi && (other.lo_boundary == Boundary::Open
            || self.hi_boundary == Boundary::Open));
        !doesnt_intersect
    }

    /// The common part: the higher lower end and the lower upper end.
    pub fn intersect(&self, other: &Interval) -> (r: Option<Interval>)
        ensures
            r is None <==> !self.intersects_spec(*other),
            r matches Some(i) ==> i == self.meet(*other),
            self.wf() && other.wf() && r is Some ==> r->0.wf(),
    {
        if !self.intersects_with(other) {
            return None;
        }
        let bigger_lo = if other.lo_cmp_le(self) {
            self
        } else {
            other
        };
        let smaller_hi = if self.hi_cmp_le(other) {
            self
        } else {
            other
        };
        Some(
            Interval {
                lo_boundary: bigger_lo.lo_boundary,
                lo: bigger_lo.lo,
                hi: smaller_hi.hi,
                hi_boundary: smaller_hi.hi_boundary,
            },
        )
    }
}


/// `a` lies wholly below `b`, with a gap between them or an endpoint that
/// both leave open.
pub open spec fn before(a: Interval, b: Interval) -> bool {
    a.hi < b.lo || (a.hi == b.lo && a.hi_boundary == Boundary::Open && b.lo_boundary
        == Boundary::Open)
}

/// Every interval is well formed and non-empty, and they are sorted with no two
/// overlapping or touching where one of them is closed.
pub open spec fn normalized(s: Seq<Interval>) -> bool {
    &&& forall|i: int| 0 <= i < s.len() ==> #[trigger] s[i].proper()
    &&& forall|i: int, j: int| 0 <= i < j < s.len() ==> before(#[trigger] s[i], #[trigger] s[j])
}

pub open spec fn all_wf(s: Seq<Interval>) -> bool {
    forall|i: int| 0 <= i < s.len() ==> #[trigger] s[i].wf()
}

/// The value `y / 2` lies in one of the intervals.
pub open spec fn seq_has(s: Seq<Interval>, y: int) -> bool {
    exists|i: int| 0 <= i < s.len() && #[trigger] s[i].has(y)
}

pub open spec fn same_points(a: Seq<Interval>, b: Seq<Interval>) -> bool {
    forall|y: int| seq_has(a, y) <==> seq_has(b, y)
}

/// The gap between two neighbouring intervals.
pub open spec fn gap(a: Interval, b: Interval) -> Interval {
    Interval { lo_boundary: a.hi_boundary.flipped(), lo: a.hi, hi: b.lo, hi_boundary: b.lo_boundary.flipped() }
}

pub open spec fn head_gap(s: Seq<Interval>) -> Seq<Interval> {
    if s[0].lo != NEG_INFINITY {
        seq![Interval { lo_boundary: Boundary::Open, lo: NEG_INFINITY, hi: s[0].lo, hi_boundary: s[0].lo_boundary.flipped() }]
    } else {
        seq![]
    }
}

pub open spec fn tail_gap(s: Seq<Interval>) -> Seq<Interval> {
    if s.last().hi != INFINITY {
        seq![Interval { lo_boundary: s.last().hi_boundary.flipped(), lo: s.last().hi, hi: INFINITY, hi_boundary: Boundary::Open }]
    } else {
        seq![]
    }
}

pub open spec fn mid_gaps(s: Seq<Interval>) -> Seq<Interval> {
    Seq::new((s.len() - 1) as nat, |k: int| gap(s[k], s[k + 1]))
}

/// The complement: the gaps before the first, between neighbouring and after
/// the last interval.
pub open spec fn complement(s: Seq<Interval>) -> Seq<Interval> {
    if s.len() == 0 {
        seq![Interval::full_line()]
    } else {
        head_gap(s) + mid_gaps(s) + tail_gap(s)
    }
}

/// Every common part of one interval with the intervals of `b`, in `b`'s order.
pub open spec fn meets_with(x: Interval, b: Seq<Interval>) -> Seq<Interval>
    decreases b.len(),
{
    if b.len() == 0 {
        seq![]
    } else if x.intersects_spec(b.last()) {
        meets_with(x, b.drop_last()).push(x.meet(b.last()))
    } else {
        meets_with(x, b.drop_last())
    }
}

/// Every common part of an interval of `a` with one of `b`.
pub open spec fn all_meets(a: Seq<Interval>, b: Seq<Interval>) -> Seq<Interval>
    decreases a.len(),
{
    if a.len() == 0 {
        seq![]
    } else {
        all_meets(a.drop_last(), b) + meets_with(a.last(), b)
    }
}

proof fn lemma_has_push(s: Seq<Interval>, x: Interval, y: int)
    ensures
        seq_has(s.push(x), y) <==> seq_has(s, y) || x.has(y),
{
    if seq_has(s, y) {
        let i = choose|i: int| 0 <= i < s.len() && #[trigger] s[i].has(y);
        assert(s.push(x)[i] == s[i]);
    }
    if x.has(y) {
        assert(s.push(x)[s.len() as int] == x);
    }
    if seq_has(s.push(x), y) {
        let i = choose|i: int| 0 <= i < s.len() + 1 && #[trigger] s.push(x)[i].has(y);
        if i < s.len() {
            assert(s[i].has(y));
        }
    }
}

pub proof fn lemma_has_concat(a: Seq<Interval>, b: Seq<Interval>, y: int)
    ensures
        seq_has(a + b, y) <==> seq_has(a, y) || seq_has(b, y),
{
    if seq_has(a, y) {
        let i = choose|i: int| 0 <= i < a.len() && #[trigger] a[i].has(y);
        assert((a + b)[i] == a[i]);
    }
    if seq_has(b, y) {
        let i = choose|i: int| 0 <= i < b.len() && #[trigger] b[i].has(y);
        assert((a + b)[a.len() + i] == b[i]);
    }
    if seq_has(a + b, y) {
        let i = choose|i: int| 0 <= i < a.len() + b.len() && #[trigger] (a + b)[i].has(y);
        if i < a.len() {
            assert(a[i].has(y));
        } else {
            assert(b[i - a.len()].has(y));
        }
    }
}

pub open spec fn sorted_by_lo(s: Seq<Interval>) -> bool {
    forall|i: int, j: int| 0 <= i < j < s.len() ==> Interval::lo_le(#[trigger] s[i], #[trigger] s[j])
}

/// The non-empty intervals of `v`, sorted by their lower ends.
#[verifier::loop_isolation(false)]
fn sort_non_empty(v: &Vec<Interval>) -> (r: Vec<Interval>)
    requires
        all_wf(v@),
    ensures
        sorted_by_lo(r@),
        forall|i: int| 0 <= i < r@.len() ==> #[trigger] r@[i].proper(),
        forall|i: int| 0 <= i < r@.len() ==> v@.contains(#[trigger] r@[i]),
        forall|i: int| 0 <= i < v@.len() && !v@[i].empty() ==> r@.contains(#[trigger] v@[i]),
        normalized(v@) ==> r@ == v@,
{
    let mut r: Vec<Interval> = Vec::new();
    let n = v.len();
    for k in 0..n
        invariant
            n == v@.len(),
            all_wf(v@),
            sorted_by_lo(r@),
            forall|i: int| 0 <= i < r@.len() ==> #[trigger] r@[i].proper(),
            forall|i: int| 0 <= i < r@.len() ==> v@.contains(#[trigger] r@[i]),
            forall|i: int| 0 <= i < k && !v@[i].empty() ==> r@.contains(#[trigger] v@[i]),
            normalized(v@) ==> r@ == v@.take(k as int),
    {
        let x = v[k];
        if !x.is_empty() {
            let mut p = r.len();
            while p > 0 && !r[p - 1].lo_cmp_le(&x)
                invariant
                    0 <= p <= r@.len(),
                    forall|q: int| p <= q < r@.len() ==> !Interval::lo_le(#[trigger] r@[q], x),
                decreases p,
            {
                p = p - 1;
            }
            proof {
                if normalized(v@) {
                    if r@.len() > 0 {
                        assert(r@[r@.len() - 1] == v@[k - 1]);
                        assert(v@[k - 1].proper());
                        assert(before(v@[k - 1], v@[k as int]));
                        assert(Interval::lo_le(v@[k - 1], v@[k as int]));
                    }
                    assert(p == r@.len());
                }
            }
            let ghost old_r = r@;
            r.insert(p, x);
            proof {
                assert forall|i: int, j: int| 0 <= i < j < r@.len() implies Interval::lo_le(
                    #[trigger] r@[i],
                    #[trigger] r@[j],
                ) by {
                    if i < p && j > p {
                        assert(r@[i] == old_r[i]);
                        assert(r@[j] == old_r[j - 1]);
                        if p > 0 {
                            assert(Interval::lo_le(old_r[p - 1], x));
                        }
                    } else if i < p && j == p {
                        assert(Interval::lo_le(old_r[p - 1], x));
                    } else if i == p && j > p {
                        assert(r@[j] == old_r[j - 1]);
                    } else if i > p {
                        assert(r@[i] == old_r[i - 1]);
                        assert(r@[j] == old_r[j - 1]);
                    }
                }
                assert forall|i: int| 0 <= i < r@.len() implies v@.contains(#[trigger] r@[i]) by {
                    if i < p {
                        assert(r@[i] == old_r[i]);
                    } else if i > p {
                        assert(r@[i] == old_r[i - 1]);
                    } else {
                        assert(v@[k as int] == x);
                    }
                }
                assert forall|i: int| 0 <= i < k + 1 && !v@[i].empty() implies r@.contains(
                    #[trigger] v@[i],
                ) by {
                    if i < k {
                        let w = choose|w: int| 0 <= w < old_r.len() && old_r[w] == v@[i];
                        if w < p {
                            assert(r@[w] == v@[i]);
                        } else {
                            assert(r@[w + 1] == v@[i]);
                        }
                    } else {
                        assert(r@[p as int] == v@[i]);
                    }
                }
                if normalized(v@) {
                    assert(r@ =~= v@.take(k + 1));
                }
            }
        } else {
            proof {
                if normalized(v@) {
                    assert(v@[k as int].proper());
                }
            }
        }
    }
    proof {
        if normalized(v@) {
            assert(v@.take(n as int) =~= v@);
        }
    }
    r
}

/// Whether `x`, whose lower end is not below `last`'s, overlaps `last` or
/// touches it at a value that one of them holds.
fn joins(last: &Interval, x: &Interval) -> (r: bool)
    ensures
        r == !before(*last, *x),
{
    x.lo < last.hi || (x.lo == last.hi && (x.lo_boundary == Boundary::Closed
        || last.hi_boundary == Boundary::Closed))
}

/// The intervals of `v` as a normalized sequence holding the same points.
#[verifier::loop_isolation(false)]
#[verifier::rlimit(50)]
fn normalize(v: &Vec<Interval>) -> (r: Vec<Interval>)
    requires
        all_wf(v@),
    ensures
        normalized(r@),
        same_points(r@, v@),
        normalized(v@) ==> r@ == v@,
{
    let sorted = sort_non_empty(v);
    let mut out: Vec<Interval> = Vec::new();
    let n = sorted.len();
    for k in 0..n
        invariant
            n == sorted@.len(),
            sorted_by_lo(sorted@),
            forall|i: int| 0 <= i < sorted@.len() ==> #[trigger] sorted@[i].proper(),
            normalized(out@),
            forall|i: int, j: int|
                0 <= i < out@.len() && k <= j < n ==> Interval::lo_le(
                    #[trigger] out@[i],
                    #[trigger] sorted@[j],
                ),
            forall|y: int| seq_has(out@, y) <==> seq_has(sorted@.take(k as int), y),
            normalized(sorted@) ==> out@ == sorted@.take(k as int),
    {
        let x = sorted[k];
        let ghost old_out = out@;
        let ghost prefix = sorted@.take(k as int);
        let ghost next = sorted@.take(k + 1);
        assert(next =~= prefix.push(x));
        if out.len() > 0 && joins(&out[out.len() - 1], &x) {
            let last = out[out.len() - 1];
            let merged = if x.hi_cmp_le(&last) {
                last
            } else {
                Interval { lo_boundary: last.lo_boundary, lo: last.lo, hi: x.hi, hi_boundary: x.hi_boundary }
            };
            let li = out.len() - 1;
            proof {
                assert(Interval::lo_le(last, x));
                assert forall|y: int| merged.has(y) <==> (last.has(y) || x.has(y)) by {}
                if normalized(sorted@) {
                    assert(out@.last() == sorted@[k - 1]);
                    assert(before(sorted@[k - 1], sorted@[k as int]));
                }
            }
            out.set(li, merged);
            proof {
                assert forall|i: int, j: int| 0 <= i < j < out@.len() implies before(
                    #[trigger] out@[i],
                    #[trigger] out@[j],
                ) by {
                    assert(before(old_out[i], old_out[j]));
                }
                let t = old_out.take(li as int);
                assert(old_out =~= t.push(last));
                assert(out@ =~= t.push(merged));
                assert forall|y: int| seq_has(out@, y) <==> seq_has(next, y) by {
                    lemma_has_push(t, last, y);
                    lemma_has_push(t, merged, y);
                    lemma_has_push(prefix, x, y);
                }
                assert(old_out[li as int].proper());
                assert(sorted@[k as int].proper());
                assert(merged.proper());
            }
        } else {
            proof {
                if out@.len() > 0 {
                    let li = out@.len() - 1;
                    assert(Interval::lo_le(out@[li], x));
                    assert forall|i: int| 0 <= i < out@.len() implies before(#[trigger] out@[i], x) by {
                        if i < li {
                            assert(before(out@[i], out@[li]));
                            assert(Interval::lo_le(out@[i], x));
                        }
                    }
                }
            }
            out.push(x);
            proof {
                assert forall|i: int, j: int| 0 <= i < j < out@.len() implies before(
                    #[trigger] out@[i],
                    #[trigger] out@[j],
                ) by {
                    if j < old_out.len() {
                        assert(before(old_out[i], old_out[j]));
                    } else {
                        assert(out@[i] == old_out[i]);
                    }
                }
                assert forall|i: int, j: int|
                    0 <= i < out@.len() && k + 1 <= j < n implies Interval::lo_le(
                    #[trigger] out@[i],
                    #[trigger] sorted@[j],
                ) by {
                    if i < old_out.len() {
                        assert(out@[i] == old_out[i]);
                    } else {
                        assert(out@[i] == sorted@[k as int]);
                    }
                }
                assert forall|y: int| seq_has(out@, y) <==> seq_has(next, y) by {
                    if seq_has(out@, y) {
                        let i = choose|i: int| 0 <= i < out@.len() && #[trigger] out@[i].has(y);
                        if i < old_out.len() {
                            assert(old_out[i].has(y));
                            assert(seq_has(old_out, y));
                            assert(seq_has(prefix, y));
                            let w = choose|w: int| 0 <= w < prefix.len() && #[trigger] prefix[w].has(y);
                            assert(next[w].has(y));
                        } else {
                            assert(next[k as int].has(y));
                        }
                    }
                    if seq_has(next, y) {
                        let i = choose|i: int| 0 <= i < next.len() && #[trigger] next[i].has(y);
                        if i < k {
                            assert(prefix[i].has(y));
                            assert(seq_has(prefix, y));
                            assert(seq_has(old_out, y));
                            let w = choose|w: int| 0 <= w < old_out.len() && #[trigger] old_out[w].has(y);
                            assert(out@[w] == old_out[w]);
                            assert(out@[w].has(y));
                        } else {
                            assert(out@[old_out.len() as int].has(y));
                        }
                    }
                }
                if normalized(sorted@) {
                    assert(out@ =~= next);
                }
            }
        }
    }
    proof {
        assert(sorted@.take(n as int) =~= sorted@);
        assert forall|y: int| seq_has(sorted@, y) <==> seq_has(v@, y) by {
            if seq_has(sorted@, y) {
                let i = choose|i: int| 0 <= i < sorted@.len() && #[trigger] sorted@[i].has(y);
                assert(v@.contains(sorted@[i]));
                let w = choose|w: int| 0 <= w < v@.len() && v@[w] == sorted@[i];
                assert(v@[w].has(y));
            }
            if seq_has(v@, y) {
                let i = choose|i: int| 0 <= i < v@.len() && #[trigger] v@[i].has(y);
                assert(!v@[i].empty());
                assert(sorted@.contains(v@[i]));
                let w = choose|w: int| 0 <= w < sorted@.len() && sorted@[w] == v@[i];
                assert(sorted@[w].has(y));
            }
        }
    }
    out
}

/// A union of intervals. It is always normalized: its constructors sort and
/// merge what they are given.
#[derive(Debug, PartialEq, Eq)]
pub struct MultiInterval {
    intervals: Vec<Interval>,
}

impl View for MultiInterval {
    type V = Seq<Interval>;

    closed spec fn view(&self) -> Seq<Interval> {
        self.intervals@
    }
}

impl MultiInterval {
    #[verifier::type_invariant]
    spec fn inv(self) -> bool {
        normalized(self.intervals@)
    }

    pub open spec fn has(&self, y: int) -> bool {
        seq_has(self@, y)
    }

    /// The intervals, lowest first.
    pub fn intervals(&self) -> (r: &Vec<Interval>)
        ensures
            r@ == self@,
            normalized(r@),
    {
        proof {
            use_type_invariant(self);
        }
        &self.intervals
    }

    /// Whether both hold the same intervals.
    pub fn equals(&self, other: &MultiInterval) -> (r: bool)
        ensures
            r == (self@ == other@),
    {
        if self.intervals.len() != other.intervals.len() {
            return false;
        }
        let n = self.intervals.len();
        for i in 0..n
            invariant
                n == self@.len(),
                n == other@.len(),
                self.intervals@ == self@,
                other.intervals@ == other@,
                forall|j: int| 0 <= j < i ==> self@[j] == other@[j],
        {
            if self.intervals[i] != other.intervals[i] {
                return false;
            }
        }
        assert(self@ =~= other@);
        true
    }

    /// An equal copy.
    pub fn duplicate(&self) -> (r: MultiInterval)
        ensures
            r@ == self@,
    {
        proof {
            use_type_invariant(self);
        }
        let v = self.intervals.clone();
        assert(v@ =~= self.intervals@);
        MultiInterval { intervals: v }
    }

    /// The normalized union of the given intervals.
    pub fn from_intervals(intervals: Vec<Interval>) -> (r: MultiInterval)
        requires
            all_wf(intervals@),
        ensures
            normalized(r@),
            same_points(r@, intervals@),
            normalized(intervals@) ==> r@ == intervals@,
    {
        MultiInterval { intervals: normalize(&intervals) }
    }

    pub fn from_interval(interval: Interval) -> (r: MultiInterval)
        requires
            interval.wf(),
        ensures
            interval.empty() ==> r@ == Seq::<Interval>::empty(),
            !interval.empty() ==> r@ == seq![interval],
    {
        let v = vec![interval];
        proof {
            if !interval.empty() {
                assert(normalized(v@));
            }
        }
        let r = MultiInterval::from_intervals(v);
        proof {
            use_type_invariant(&r);
            if interval.empty() {
                if r@.len() > 0 {
                    let x = r@[0];
                    assert(r@[0].proper());
                    let y = if x.lo < x.hi { 2 * x.lo + 1 } else { 2 * x.lo };
                    assert(x.has(y));
                    assert(seq_has(r@, y));
                }
            }
        }
        r
    }

    /// Builds one interval (see `Interval::new`) and normalizes it.
    pub fn new(lo_boundary: Boundary, lo: i64, hi: i64, hi_boundary: Boundary) -> (r: Result<
        MultiInterval,
        IntervalError,
    >)
        ensures
            lo > hi <==> r is Err,
            r matches Err(e) ==> e is LoIsGreaterThanHi,
            r matches Ok(m) ==> {
                let i = Interval::built(lo_boundary, lo, hi, hi_boundary);
                &&& i.empty() ==> m@ == Seq::<Interval>::empty()
                &&& !i.empty() ==> m@ == seq![i]
            },
    {
        match Interval::new(lo_boundary, lo, hi, hi_boundary) {
            Ok(i) => Ok(MultiInterval::from_interval(i)),
            Err(e) => Err(e),
        }
    }

    pub fn new_empty() -> (r: MultiInterval)
        ensures
            r@ == Seq::<Interval>::empty(),
    {
        let r = MultiInterval { intervals: Vec::new() };
        assert(r@ =~= Seq::<Interval>::empty());
        r
    }

    pub fn new_closed(lo: i64, hi: i64) -> (r: Result<MultiInterval, IntervalError>)
        ensures
            lo > hi <==> r is Err,
            r matches Err(e) ==> e is LoIsGreaterThanHi,
            r matches Ok(m) ==> {
                let i = Interval::built(Boundary::Closed, lo, hi, Boundary::Closed);
                &&& i.empty() ==> m@ == Seq::<Interval>::empty()
                &&& !i.empty() ==> m@ == seq![i]
            },
    {
        MultiInterval::new(Boundary::Closed, lo, hi, Boundary::Closed)
    }

    /// The single closed point `[num, num]`, or nothing when `num` is infinite.
    pub fn new_closed_point(num: i64) -> (r: MultiInterval)
        ensures
            num != NEG_INFINITY && num != INFINITY ==> r@ == seq![
                Interval { lo_boundary: Boundary::Closed, lo: num, hi: num, hi_boundary: Boundary::Closed },
            ],
            num == NEG_INFINITY || num == INFINITY ==> r@ == Seq::<Interval>::empty(),
    {
        let i = Interval::new(Boundary::Closed, num, num, Boundary::Closed);
        match i {
            Ok(i) => MultiInterval::from_interval(i),
            Err(_) => MultiInterval::new_empty(),
        }
    }

    fn highest_hi(&self) -> (r: i64)
        requires
            self@.len() > 0,
        ensures
            r == self@.last().hi,
    {
        self.intervals[self.intervals.len() - 1].hi
    }

    fn lowest_lo(&self) -> (r: i64)
        requires
            self@.len() > 0,
        ensures
            r == self@[0].lo,
    {
        self.intervals[0].lo
    }

    fn highest_boundary(&self) -> (r: Boundary)
        requires
            self@.len() > 0,
        ensures
            r == self@.last().hi_boundary,
    {
        self.intervals[self.intervals.len() - 1].hi_boundary
    }

    fn lowest_boundary(&self) -> (r: Boundary)
        requires
            self@.len() > 0,
        ensures
            r == self@[0].lo_boundary,
    {
        self.intervals[0].lo_boundary
    }

    pub fn is_empty(&self) -> (r: bool)
        ensures
            r == (self@.len() == 0),
    {
        self.intervals.len() == 0
    }

    /// The complement on the whole line.
    pub fn inverse(&self) -> (r: MultiInterval)
        ensures
            r@ == complement(self@),
    {
        proof {
            use_type_invariant(self);
            lemma_complement_normalized(self@);
        }
        if self.intervals.len() == 0 {
            return MultiInterval {
                intervals: vec![
                    Interval { lo_boundary: Boundary::Open, lo: NEG_INFINITY, hi: INFINITY, hi_boundary: Boundary::Open },
                ],
            };
        }
        let mut new_intervals: Vec<Interval> = Vec::new();
        if self.lowest_lo() != NEG_INFINITY {
            new_intervals.push(
                Interval {
                    lo_boundary: Boundary::Open,
                    lo: NEG_INFINITY,
                    hi: self.lowest_lo(),
                    hi_boundary: self.lowest_boundary().inverse(),
                },
            );
        }
        let ghost head = new_intervals@;
        assert(head == head_gap(self@));
        let n = self.intervals.len();
        for k in 0..n - 1
            invariant
                n == self@.len(),
                n > 0,
                self.intervals@ == self@,
                new_intervals@ == head + mid_gaps(self@).take(k as int),
        {
            let a = self.intervals[k];
            let b = self.intervals[k + 1];
            new_intervals.push(
                Interval {
                    lo_boundary: a.hi_boundary.inverse(),
                    lo: a.hi,
                    hi: b.lo,
                    hi_boundary: b.lo_boundary.inverse(),
                },
            );
            assert(new_intervals@ =~= head + mid_gaps(self@).take(k + 1));
        }
        assert(mid_gaps(self@).take(n - 1) =~= mid_gaps(self@));
        if self.highest_hi() != INFINITY {
            new_intervals.push(
                Interval {
                    lo_boundary: self.highest_boundary().inverse(),
                    lo: self.highest_hi(),
                    hi: INFINITY,
                    hi_boundary: Boundary::Open,
                },
            );
        }
        assert(new_intervals@ =~= complement(self@));
        MultiInterval { intervals: new_intervals }
    }

    /// Whether some interval of each share a value.
    pub fn intersects_with(&self, other: &MultiInterval) -> (r: bool)
        ensures
            r == exists|i: int, j: int|
                0 <= i < self@.len() && 0 <= j < other@.len() && (#[trigger] self@[i]).intersects_spec(
                    #[trigger] other@[j],
                ),
    {
        let n = self.intervals.len();
        let m = other.intervals.len();
        for i in 0..n
            invariant
                n == self@.len(),
                m == other@.len(),
                self.intervals@ == self@,
                other.intervals@ == other@,
                forall|a: int, b: int|
                    0 <= a < i && 0 <= b < m ==> !(#[trigger] self@[a]).intersects_spec(
                        #[trigger] other@[b],
                    ),
        {
            for j in 0..m
                invariant
                    n == self@.len(),
                    m == other@.len(),
                    i < n,
                    self.intervals@ == self@,
                    other.intervals@ == other@,
                    forall|a: int, b: int|
                        0 <= a < i && 0 <= b < m ==> !(#[trigger] self@[a]).intersects_spec(
                            #[trigger] other@[b],
                        ),
                    forall|b: int| 0 <= b < j ==> !self@[i as int].intersects_spec(#[trigger] other@[b]),
            {
                if self.intervals[i].intersects_with(&other.intervals[j]) {
                    return true;
                }
            }
        }
        false
    }

    /// Every common part of an interval of each, normalized; `None` when there
    /// is none.
    pub fn intersect(&self, other: &MultiInterval) -> (r: Option<MultiInterval>)
        ensures
            r is None <==> all_meets(self@, other@).len() == 0,
            r matches Some(m) ==> same_points(m@, all_meets(self@, other@)),
            r matches Some(m) ==> normalized(all_meets(self@, other@)) ==> m@ == all_meets(
                self@,
                other@,
            ),
    {
        proof {
            use_type_invariant(self);
            use_type_invariant(other);
        }
        let mut pieces: Vec<Interval> = Vec::new();
        let n = self.intervals.len();
        let m = other.intervals.len();
        for i in 0..n
            invariant
                n == self@.len(),
                m == other@.len(),
                self.intervals@ == self@,
                other.intervals@ == other@,
                normalized(self@),
                normalized(other@),
                pieces@ == all_meets(self@.take(i as int), other@),
                all_wf(pieces@),
        {
            let ghost before_row = pieces@;
            for j in 0..m
                invariant
                    n == self@.len(),
                    m == other@.len(),
                    i < n,
                    self.intervals@ == self@,
                    other.intervals@ == other@,
                    normalized(self@),
                    normalized(other@),
                    before_row == all_meets(self@.take(i as int), other@),
                    pieces@ == before_row + meets_with(self@[i as int], other@.take(j as int)),
                    all_wf(pieces@),
            {
                let x = self.intervals[i];
                let y = other.intervals[j];
                assert(other@.take(j + 1).drop_last() =~= other@.take(j as int));
                assert(self@[i as int].proper());
                assert(other@[j as int].proper());
                match x.intersect(&y) {
                    Some(z) => {
                        pieces.push(z);
                        assert(pieces@ =~= before_row + meets_with(
                            self@[i as int],
                            other@.take(j + 1),
                        ));
                    },
                    None => {},
                }
            }
            assert(other@.take(m as int) =~= other@);
            assert(self@.take(i + 1).drop_last() =~= self@.take(i as int));
        }
        assert(self@.take(n as int) =~= self@);
        if pieces.len() == 0 {
            None
        } else {
            Some(MultiInterval::from_intervals(pieces))
        }
    }

    /// The normalized union of both.
    pub fn union(&self, other: &MultiInterval) -> (r: MultiInterval)
        ensures
            same_points(r@, self@ + other@),
    {
        proof {
            use_type_invariant(self);
            use_type_invariant(other);
        }
        let mut v = self.intervals.clone();
        let mut w = other.intervals.clone();
        assert(v@ =~= self@);
        assert(w@ =~= other@);
        v.append(&mut w);
        assert(all_wf(v@)) by {
            assert forall|i: int| 0 <= i < v@.len() implies #[trigger] v@[i].wf() by {
                if i < self@.len() {
                    assert(self@[i].proper());
                } else {
                    assert(other@[i - self@.len()].proper());
                }
            }
        }
        MultiInterval::from_intervals(v)
    }
}

impl Clone for MultiInterval {
    fn clone(&self) -> (r: MultiInterval)
        ensures
            r@ == self@,
    {
        self.duplicate()
    }
}

impl Interval {
    /// The normalized union of two intervals.
    pub fn union(&self, other: &Interval) -> (r: MultiInterval)
        requires
            self.wf(),
            other.wf(),
        ensures
            same_points(r@, seq![*self, *other]),
    {
        let v = vec![*self, *other];
        MultiInterval::from_intervals(v)
    }
}

/// Where each interval of the complement starts and ends, in terms of the
/// intervals it complements.
proof fn lemma_complement_shape(s: Seq<Interval>)
    requires
        s.len() > 0,
    ensures
        ({
            let c = complement(s);
            let n = s.len() as int;
            let h = head_gap(s).len() as int;
            &&& h == (if s[0].lo != NEG_INFINITY { 1int } else { 0int })
            &&& c.len() == h + n - 1 + (if s.last().hi != INFINITY { 1int } else { 0int })
            &&& forall|j: int|
                0 <= j < c.len() ==> {
                    &&& (j >= h ==> (#[trigger] c[j]).lo == s[j - h].hi && c[j].lo_boundary
                        == s[j - h].hi_boundary.flipped())
                    &&& (j < h ==> c[j].lo == NEG_INFINITY && c[j].lo_boundary == Boundary::Open)
                    &&& (j - h + 1 < n ==> c[j].hi == s[j - h + 1].lo && c[j].hi_boundary
                        == s[j - h + 1].lo_boundary.flipped())
                    &&& (j - h + 1 >= n ==> c[j].hi == INFINITY && c[j].hi_boundary
                        == Boundary::Open)
                }
        }),
{
    let c = complement(s);
    let n = s.len() as int;
    let h = head_gap(s).len() as int;
    assert forall|j: int| 0 <= j < c.len() implies {
        &&& (j >= h ==> (#[trigger] c[j]).lo == s[j - h].hi && c[j].lo_boundary == s[j
            - h].hi_boundary.flipped())
        &&& (j < h ==> c[j].lo == NEG_INFINITY && c[j].lo_boundary == Boundary::Open)
        &&& (j - h + 1 < n ==> c[j].hi == s[j - h + 1].lo && c[j].hi_boundary == s[j - h
            + 1].lo_boundary.flipped())
        &&& (j - h + 1 >= n ==> c[j].hi == INFINITY && c[j].hi_boundary == Boundary::Open)
    } by {
        if j < h {
            assert(c[j] == head_gap(s)[0]);
        } else if j < h + n - 1 {
            assert(c[j] == mid_gaps(s)[j - h]);
        } else {
            assert(c[j] == tail_gap(s)[0]);
        }
    }
}

impl Intersectable for Interval {
    fn intersects_with(&self, other: &Interval) -> (r: bool)
        ensures
            r == self.intersects_spec(*other),
    {
        Interval::intersects_with(self, other)
    }

    fn intersect(&self, other: &Interval) -> (r: Option<Interval>)
        ensures
            r is None <==> !self.intersects_spec(*other),
            r matches Some(i) ==> i == self.meet(*other),
    {
        Interval::intersect(self, other)
    }
}

impl Intersectable for MultiInterval {
    fn intersects_with(&self, other: &MultiInterval) -> (r: bool)
        ensures
            r == exists|i: int, j: int|
                0 <= i < self@.len() && 0 <= j < other@.len() && (#[trigger] self@[i]).intersects_spec(
                    #[trigger] other@[j],
                ),
    {
        MultiInterval::intersects_with(self, other)
    }

    fn intersect(&self, other: &MultiInterval) -> (r: Option<MultiInterval>)
        ensures
            r is None <==> all_meets(self@, other@).len() == 0,
            r matches Some(m) ==> same_points(m@, all_meets(self@, other@)),
    {
        MultiInterval::intersect(self, other)
    }
}

impl Unionable<MultiInterval, MultiInterval> for MultiInterval {
    fn union(&self, other: &MultiInterval) -> (r: MultiInterval)
        ensures
            same_points(r@, self@ + other@),
    {
        MultiInterval::union(self, other)
    }
}

/// The complement of a normalized sequence is normalized.
pub proof fn lemma_complement_normalized(s: Seq<Interval>)
    requires
        normalized(s),
    ensures
        normalized(complement(s)),
{
    let c = complement(s);
    let n = s.len() as int;
    if n == 0 {
        assert(c[0] == Interval::full_line());
        return;
    }
    lemma_complement_shape(s);
    let h = head_gap(s).len() as int;
    assert forall|j: int| 0 <= j < c.len() implies #[trigger] c[j].proper() by {
        if j >= h {
            assert(s[j - h].proper());
        }
        if j - h + 1 < n {
            assert(s[j - h + 1].proper());
        }
        if j >= h && j - h + 1 < n {
            assert(before(s[j - h], s[j - h + 1]));
        }
    }
    assert forall|i: int, j: int| 0 <= i < j < c.len() implies before(
        #[trigger] c[i],
        #[trigger] c[j],
    ) by {
        let a = i - h + 1;
        let b = j - h;
        assert(s[a].proper());
        assert(s[b].proper());
        if a < b {
            assert(before(s[a], s[b]));
        }
    }
}

/// The complement of the complement of a normalized union of intervals is
/// that union again.
#[verifier::rlimit(40)]
pub proof fn lemma_inverse_inverse(s: Seq<Interval>)
    requires
        normalized(s),
    ensures
        complement(complement(s)) == s,
{
    let t = complement(s);
    let n = s.len() as int;
    lemma_complement_normalized(s);
    if n == 0 {
        assert(complement(t) =~= s);
        return;
    }
    lemma_complement_shape(s);
    let h = head_gap(s).len() as int;
    let g = if s.last().hi != INFINITY { 1int } else { 0int };
    assert(s[0].proper());
    assert(s[n - 1].proper());
    if t.len() == 0 {
        assert(n == 1);
        assert(complement(t) =~= s);
        return;
    }
    lemma_complement_shape(t);
    let u = complement(t);
    let h2 = head_gap(t).len() as int;
    assert(h2 == 1 - h);
    let tl = t.len() - 1;
    assert(tl - h + 1 >= n <==> g == 1);
    assert(u.len() == n);
    assert forall|i: int| 0 <= i < n implies #[trigger] u[i] == s[i] by {
        assert(s[i].proper());
        if i >= h2 {
            assert(u[i].lo == t[i - h2].hi);
        }
        if i - h2 + 1 < t.len() {
            assert(u[i].hi == t[i - h2 + 1].lo);
        }
    }
    assert(u =~= s);
}

/// No interval of a normalized union shares a value with one of its
/// complement.
pub proof fn lemma_disjoint_from_inverse(s: Seq<Interval>)
    requires
        normalized(s),
    ensures
        forall|i: int, j: int|
            0 <= i < s.len() && 0 <= j < complement(s).len() ==> !(#[trigger] s[i]).intersects_spec(
                #[trigger] complement(s)[j],
            ),
{
    let c = complement(s);
    let n = s.len() as int;
    if n == 0 {
        return;
    }
    lemma_complement_shape(s);
    let h = head_gap(s).len() as int;
    assert forall|i: int, j: int| 0 <= i < n && 0 <= j < c.len() implies !(
    #[trigger] s[i]).intersects_spec(#[trigger] c[j]) by {
        assert(s[i].proper());
        let a = j - h;
        let b = j - h + 1;
        if 0 <= i < a {
            assert(s[a].proper());
            assert(before(s[i], s[a]));
        }
        if b < i < n {
            assert(s[b].proper());
            assert(before(s[b], s[i]));
        }
    }
}

/// Meets of intervals that pairwise share nothing are none at all.
proof fn lemma_no_meets(a: Seq<Interval>, b: Seq<Interval>)
    requires
        forall|i: int, j: int|
            0 <= i < a.len() && 0 <= j < b.len() ==> !(#[trigger] a[i]).intersects_spec(
                #[trigger] b[j],
            ),
    ensures
        all_meets(a, b).len() == 0,
    decreases a.len(),
{
    if a.len() > 0 {
        lemma_no_meets(a.drop_last(), b);
        lemma_no_meets_with(a.last(), b);
    }
}

proof fn lemma_no_meets_with(x: Interval, b: Seq<Interval>)
    requires
        forall|j: int| 0 <= j < b.len() ==> !x.intersects_spec(#[trigger] b[j]),
    ensures
        meets_with(x, b).len() == 0,
    decreases b.len(),
{
    if b.len() > 0 {
        lemma_no_meets_with(x, b.drop_last());
    }
}

proof fn lemma_meets_full(a: Seq<Interval>)
    requires
        forall|i: int| 0 <= i < a.len() ==> #[trigger] a[i].proper(),
    ensures
        all_meets(a, seq![Interval::full_line()]) == a,
    decreases a.len(),
{
    if a.len() > 0 {
        let f = seq![Interval::full_line()];
        lemma_meets_full(a.drop_last());
        let x = a.last();
        assert(a[a.len() - 1].proper());
        assert(f.drop_last() =~= Seq::<Interval>::empty());
        assert(x.intersects_spec(f.last()));
        assert(x.meet(f.last()) == x);
        assert(meets_with(x, f.drop_last()) =~= Seq::<Interval>::empty());
        assert(meets_with(a.last(), f) =~= seq![a.last()]);
        assert(a.drop_last().push(a.last()) =~= a);
    }
}

/// Intersecting a non-empty normalized union with the whole line gives it
/// back unchanged.
pub proof fn lemma_meet_full_line(s: Seq<Interval>)
    requires
        normalized(s),
    ensures
        all_meets(s, seq![Interval::full_line()]) == s,
{
    lemma_meets_full(s);
}

/// A normalized union shares nothing with its complement.
pub proof fn lemma_no_meets_with_inverse(s: Seq<Interval>)
    requires
        normalized(s),
    ensures
        all_meets(s, complement(s)).len() == 0,
{
    lemma_disjoint_from_inverse(s);
    lemma_no_meets(s, complement(s));
}


/// The lowest value an interval holds, on the halved grid.
pub open spec fn lo_key(x: Interval) -> int {
    2 * x.lo + if x.lo_boundary == Boundary::Open {
        1int
    } else {
        0int
    }
}

/// The highest value an interval holds, on the halved grid.
pub open spec fn hi_key(x: Interval) -> int {
    2 * x.hi - if x.hi_boundary == Boundary::Open {
        1int
    } else {
        0int
    }
}

proof fn lemma_keys(x: Interval)
    ensures
        forall|p: int| #[trigger] x.has(p) <==> lo_key(x) <= p <= hi_key(x),
        x.proper() ==> lo_key(x) <= hi_key(x),
{
}

proof fn lemma_before_keys(x: Interval, z: Interval)
    requires
        x.proper(),
        z.proper(),
        before(x, z),
    ensures
        hi_key(x) + 1 < lo_key(z),
{
}

proof fn lemma_prefix_equal(a: Seq<Interval>, b: Seq<Interval>, i: int)
    requires
        normalized(a),
        normalized(b),
        same_points(a, b),
        0 <= i <= a.len(),
        i <= b.len(),
    ensures
        forall|j: int| 0 <= j < i ==> a[j] == b[j],
    decreases i,
{
    if i > 0 {
        lemma_prefix_equal(a, b, i - 1);
        let k = i - 1;
        let x = a[k];
        let z = b[k];
        assert(x.proper());
        assert(z.proper());
        lemma_keys(x);
        lemma_keys(z);
        // A value of one that the other must hold somewhere.
        assert forall|s: Seq<Interval>, t: Seq<Interval>, y: int|
            normalized(s) && normalized(t) && same_points(s, t) && k < s.len() && k < t.len()
                && (forall|j: int| 0 <= j < k ==> s[j] == t[j]) && s[k].has(y) && y < lo_key(t[k])
            implies false by {
            assert(s[k].has(y));
            assert(seq_has(s, y));
            assert(seq_has(t, y));
            let m = choose|m: int| 0 <= m < t.len() && #[trigger] t[m].has(y);
            assert(s[k].proper());
            assert(t[k].proper());
            assert(t[m].proper());
            lemma_keys(t[m]);
            lemma_keys(t[k]);
            lemma_keys(s[k]);
            if m < k {
                assert(s[m] == t[m]);
                assert(s[m].proper());
                lemma_before_keys(s[m], s[k]);
                lemma_keys(s[m]);
            } else if m > k {
                lemma_before_keys(t[k], t[m]);
            }
        }
        if lo_key(x) < lo_key(z) {
            assert(x.has(lo_key(x)));
        } else if lo_key(z) < lo_key(x) {
            assert(z.has(lo_key(z)));
            assert(same_points(b, a));
        } else if hi_key(x) < hi_key(z) {
            let y = hi_key(x) + 1;
            assert(z.has(y));
            assert(seq_has(b, y));
            assert(seq_has(a, y));
            let m = choose|m: int| 0 <= m < a.len() && #[trigger] a[m].has(y);
            assert(a[m].proper());
            lemma_keys(a[m]);
            if m < k {
                assert(a[m] == b[m]);
                lemma_before_keys(b[m], z);
                assert(b[m].proper());
                lemma_keys(b[m]);
            } else if m > k {
                lemma_before_keys(x, a[m]);
            }
        } else if hi_key(z) < hi_key(x) {
            let y = hi_key(z) + 1;
            assert(x.has(y));
            assert(seq_has(a, y));
            assert(seq_has(b, y));
            let m = choose|m: int| 0 <= m < b.len() && #[trigger] b[m].has(y);
            assert(b[m].proper());
            lemma_keys(b[m]);
            if m < k {
                assert(a[m] == b[m]);
                lemma_before_keys(a[m], x);
                assert(a[m].proper());
                lemma_keys(a[m]);
            } else if m > k {
                lemma_before_keys(z, b[m]);
            }
        }
    }
}

/// A normalized union of intervals is fixed by the values it holds: two of
/// them holding the same values are equal.
pub proof fn lemma_normalized_unique(a: Seq<Interval>, b: Seq<Interval>)
    requires
        normalized(a),
        normalized(b),
        same_points(a, b),
    ensures
        a == b,
{
    let n = if a.len() <= b.len() { a.len() as int } else { b.len() as int };
    lemma_prefix_equal(a, b, n);
    if a.len() > n {
        let x = a[n];
        assert(x.proper());
        lemma_keys(x);
        assert(x.has(lo_key(x)));
        assert(seq_has(a, lo_key(x)));
        let m = choose|m: int| 0 <= m < b.len() && #[trigger] b[m].has(lo_key(x));
        assert(a[m] == b[m]);
        assert(a[m].proper());
        lemma_before_keys(a[m], x);
        lemma_keys(a[m]);
    } else if b.len() > n {
        let z = b[n];
        assert(z.proper());
        lemma_keys(z);
        assert(z.has(lo_key(z)));
        assert(seq_has(b, lo_key(z)));
        let m = choose|m: int| 0 <= m < a.len() && #[trigger] a[m].has(lo_key(z));
        assert(a[m] == b[m]);
        assert(b[m].proper());
        lemma_before_keys(b[m], z);
        lemma_keys(b[m]);
    }
    assert(a =~= b);
}

} // verus!
