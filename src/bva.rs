use vstd::prelude::*;
use crate::interval::{
    Boundary, Interval, MultiInterval, INFINITY, NEG_INFINITY, all_wf, normalized, same_points,
    seq_has, lemma_has_concat,
};

verus! {

/// The largest magnitude of a finite endpoint, and of a precision, that the
/// derivations accept; it leaves room for two steps either way.
pub const MAX_FINITE: i64 = 0x1000_0000_0000_0000;

pub open spec fn finite_ok(v: i64) -> bool {
    -MAX_FINITE <= v <= MAX_FINITE
}

/// A well-formed interval with bounded finite ends, and a positive bounded
/// precision.
pub open spec fn bva_ready(i: Interval, p: i64) -> bool {
    &&& i.wf()
    &&& i.lo == NEG_INFINITY || finite_ok(i.lo)
    &&& i.hi == INFINITY || finite_ok(i.hi)
    &&& 0 < p <= MAX_FINITE
}

/// `v` moved by `d`; an infinite value stays where it is.
pub open spec fn stepped(v: i64, d: int) -> int {
    if v == NEG_INFINITY || v == INFINITY {
        v as int
    } else {
        v + d
    }
}

pub open spec fn point(v: int) -> Interval {
    Interval { lo_boundary: Boundary::Closed, lo: v as i64, hi: v as i64, hi_boundary: Boundary::Closed }
}

pub open spec fn open_or(b: Boundary, if_open: int, if_closed: int) -> int {
    if b == Boundary::Open {
        if_open
    } else {
        if_closed
    }
}

/// The closed interval between two computed ends, when they are in order.
pub open spec fn closed_between(lo: int, hi: int) -> Seq<Interval> {
    if lo <= hi {
        let j = Interval::built(Boundary::Closed, lo as i64, hi as i64, Boundary::Closed);
        if j.empty() {
            seq![]
        } else {
            seq![j]
        }
    } else {
        seq![]
    }
}

pub open spec fn in_lo(i: Interval, p: i64) -> int {
    stepped(i.lo, open_or(i.lo_boundary, p as int, 0))
}

pub open spec fn in_hi(i: Interval, p: i64) -> int {
    stepped(i.hi, open_or(i.hi_boundary, -p, 0))
}

/// Accepted values, one step in from each open end.
pub open spec fn in_spec(i: Interval, p: i64) -> Seq<Interval> {
    let lo = in_lo(i, p);
    let hi = in_hi(i, p);
    if (i.contains_spec(lo) || i.lo == NEG_INFINITY) && (i.contains_spec(hi) || i.hi
        == INFINITY) {
        closed_between(lo, hi)
    } else {
        seq![]
    }
}

/// Accepted values, one step further in than `in_spec`.
pub open spec fn inin_spec(i: Interval, p: i64) -> Seq<Interval> {
    closed_between(
        stepped(i.lo, open_or(i.lo_boundary, 2 * p, p as int)),
        stepped(i.hi, open_or(i.hi_boundary, -2 * p, -p)),
    )
}

/// The first accepted value from each end, where the interval holds it.
pub open spec fn on_spec(i: Interval, p: i64) -> Seq<Interval> {
    (if i.contains_spec(in_lo(i, p)) {
        seq![point(in_lo(i, p))]
    } else {
        seq![]
    }) + (if i.contains_spec(in_hi(i, p)) {
        seq![point(in_hi(i, p))]
    } else {
        seq![]
    })
}

pub open spec fn off_lo(i: Interval, p: i64) -> int {
    i.lo - open_or(i.lo_boundary, 0, p as int)
}

pub open spec fn off_hi(i: Interval, p: i64) -> int {
    i.hi + open_or(i.hi_boundary, 0, p as int)
}

/// The first rejected value beyond each finite end.
pub open spec fn off_spec(i: Interval, p: i64) -> Seq<Interval> {
    (if i.lo != NEG_INFINITY {
        seq![point(off_lo(i, p))]
    } else {
        seq![]
    }) + (if i.hi != INFINITY {
        seq![point(off_hi(i, p))]
    } else {
        seq![]
    })
}

/// Rays from each finite end outwards, starting `k_open` steps past an open
/// end and `k_closed` steps past a closed one.
pub open spec fn rays(i: Interval, p: i64, k_open: int, k_closed: int) -> Seq<Interval> {
    (if i.lo != NEG_INFINITY {
        seq![Interval::built(Boundary::Closed, NEG_INFINITY, (i.lo - open_or(i.lo_boundary, k_open * p, k_closed * p)) as i64, Boundary::Closed)]
    } else {
        seq![]
    }) + (if i.hi != INFINITY {
        seq![Interval::built(Boundary::Closed, (i.hi + open_or(i.hi_boundary, k_open * p, k_closed * p)) as i64, INFINITY, Boundary::Closed)]
    } else {
        seq![]
    })
}

/// Rejected values one step past the first rejected ones.
pub open spec fn out_spec(i: Interval, p: i64) -> Seq<Interval> {
    rays(i, p, 1, 2)
}

/// Every rejected value.
pub open spec fn off_out_spec(i: Interval, p: i64) -> Seq<Interval> {
    rays(i, p, 0, 1)
}

/// The six derivations.
#[derive(Debug, PartialEq, Eq, Structural, Clone, Copy)]
pub enum BvaKind {
    In,
    Out,
    OffOut,
    On,
    Inin,
    Off,
}

pub open spec fn kind_spec(kind: BvaKind, i: Interval, p: i64) -> Seq<Interval> {
    match kind {
        BvaKind::In => in_spec(i, p),
        BvaKind::Out => out_spec(i, p),
        BvaKind::OffOut => off_out_spec(i, p),
        BvaKind::On => on_spec(i, p),
        BvaKind::Inin => inin_spec(i, p),
        BvaKind::Off => off_spec(i, p),
    }
}

/// Every interval of `s` is ready for the derivations at precision `p`.
pub open spec fn all_ready(s: Seq<Interval>, p: i64) -> bool {
    forall|k: int| 0 <= k < s.len() ==> bva_ready(#[trigger] s[k], p)
}

/// The value `y / 2` is a result of the derivation on one of the intervals.
pub open spec fn kind_has(kind: BvaKind, s: Seq<Interval>, p: i64, y: int) -> bool {
    exists|k: int| 0 <= k < s.len() && seq_has(kind_spec(kind, #[trigger] s[k], p), y)
}

/// Whether every interval can be derived from at precision `p`.
pub fn ready(m: &MultiInterval, p: i64) -> (r: bool)
    ensures
        r == all_ready(m@, p),
{
    let ivs = m.intervals();
    let n = ivs.len();
    for k in 0..n
        invariant
            n == m@.len(),
            ivs@ == m@,
            crate::interval::normalized(m@),
            forall|j: int| 0 <= j < k ==> bva_ready(#[trigger] m@[j], p),
    {
        let i = ivs[k];
        assert(m@[k as int].proper());
        let lo_ok = i.lo == NEG_INFINITY || (-MAX_FINITE <= i.lo && i.lo <= MAX_FINITE);
        let hi_ok = i.hi == INFINITY || (-MAX_FINITE <= i.hi && i.hi <= MAX_FINITE);
        if !(lo_ok && hi_ok && 0 < p && p <= MAX_FINITE) {
            assert(!bva_ready(m@[k as int], p));
            return false;
        }
    }
    true
}

fn step(v: i64, d: i64) -> (r: i64)
    requires
        v == NEG_INFINITY || v == INFINITY || finite_ok(v),
        -2 * MAX_FINITE <= d <= 2 * MAX_FINITE,
    ensures
        r == stepped(v, d as int),
{
    if v == NEG_INFINITY || v == INFINITY {
        v
    } else {
        v + d
    }
}

fn closed_point(v: i64) -> (r: Interval)
    ensures
        r == point(v as int),
{
    Interval::new_closed_point(v)
}

impl Interval {
    /// Accepted values, one step in from each open end; empty when that
    /// leaves the interval.
    pub fn calc_in(&self, precision: i64) -> (r: MultiInterval)
        requires
            bva_ready(*self, precision),
        ensures
            r@ == in_spec(*self, precision),
    {
        let lo = step(self.lo, if self.lo_boundary == Boundary::Open { precision } else { 0 });
        let hi = step(self.hi, if self.hi_boundary == Boundary::Open { -precision } else { 0 });
        if !((self.contains_point(lo) || self.lo == NEG_INFINITY) && (self.contains_point(hi)
            || self.hi == INFINITY)) {
            return MultiInterval::new_empty();
        }
        match Interval::new_closed(lo, hi) {
            Ok(in_interval) => MultiInterval::from_interval(in_interval),
            Err(_) => MultiInterval::new_empty(),
        }
    }

    /// Accepted values, two steps in from an open end and one from a closed
    /// one.
    pub fn inin(&self, precision: i64) -> (r: MultiInterval)
        requires
            bva_ready(*self, precision),
        ensures
            r@ == inin_spec(*self, precision),
    {
        let two_steps = 2 * precision;
        let lo = step(self.lo, if self.lo_boundary == Boundary::Open { two_steps } else { precision });
        let hi = step(self.hi, if self.hi_boundary == Boundary::Open { -two_steps } else { -precision });
        match Interval::new_closed(lo, hi) {
            Ok(inin) => MultiInterval::from_interval(inin),
            Err(_) => MultiInterval::new_empty(),
        }
    }

    /// The first accepted value from each end: at most two single points, all
    /// inside the interval.
    pub fn on(&self, precision: i64) -> (r: MultiInterval)
        requires
            bva_ready(*self, precision),
        ensures
            same_points(r@, on_spec(*self, precision)),
            forall|y: int| #[trigger] r.has(y) ==> self.has(y),
            forall|k: int|
                0 <= k < r@.len() ==> (#[trigger] r@[k]).lo == r@[k].hi && r@[k].lo_boundary
                    == Boundary::Closed && r@[k].hi_boundary == Boundary::Closed,
    {
        let mut ons: Vec<Interval> = Vec::new();
        let on_lo = step(self.lo, if self.lo_boundary == Boundary::Open { precision } else { 0 });
        if self.contains_point(on_lo) {
            ons.push(closed_point(on_lo));
        }
        let on_hi = step(self.hi, if self.hi_boundary == Boundary::Open { -precision } else { 0 });
        if self.contains_point(on_hi) {
            ons.push(closed_point(on_hi));
        }
        assert(ons@ =~= on_spec(*self, precision));
        let r = MultiInterval::from_intervals(ons);
        proof {
            lemma_points_only(r@, ons@);
        }
        r
    }

    /// The first rejected value beyond each finite end: at most two single
    /// points, none inside the interval.
    pub fn off(&self, precision: i64) -> (r: MultiInterval)
        requires
            bva_ready(*self, precision),
        ensures
            same_points(r@, off_spec(*self, precision)),
            forall|y: int| #[trigger] r.has(y) ==> !self.has(y),
            forall|k: int|
                0 <= k < r@.len() ==> (#[trigger] r@[k]).lo == r@[k].hi && r@[k].lo_boundary
                    == Boundary::Closed && r@[k].hi_boundary == Boundary::Closed,
    {
        let mut offs: Vec<Interval> = Vec::new();
        if self.lo != NEG_INFINITY {
            offs.push(
                closed_point(
                    self.lo - if self.lo_boundary == Boundary::Open { 0 } else { precision },
                ),
            );
        }
        if self.hi != INFINITY {
            offs.push(
                closed_point(
                    self.hi + if self.hi_boundary == Boundary::Open { 0 } else { precision },
                ),
            );
        }
        assert(offs@ =~= off_spec(*self, precision));
        let r = MultiInterval::from_intervals(offs);
        proof {
            lemma_points_only(r@, offs@);
        }
        r
    }

    /// Rays of rejected values, starting one step past the first rejected
    /// value on each finite side.
    pub fn out(&self, precision: i64) -> (r: MultiInterval)
        requires
            bva_ready(*self, precision),
        ensures
            same_points(r@, out_spec(*self, precision)),
    {
        let mut outs: Vec<Interval> = Vec::new();
        if self.lo != NEG_INFINITY {
            let end = self.lo - if self.lo_boundary == Boundary::Open {
                precision
            } else {
                2 * precision
            };
            match Interval::new_closed(NEG_INFINITY, end) {
                Ok(out_lo) => outs.push(out_lo),
                Err(_) => {},
            }
        }
        if self.hi != INFINITY {
            let start = self.hi + if self.hi_boundary == Boundary::Open {
                precision
            } else {
                2 * precision
            };
            match Interval::new_closed(start, INFINITY) {
                Ok(out_hi) => outs.push(out_hi),
                Err(_) => {},
            }
        }
        assert(outs@ =~= out_spec(*self, precision));
        MultiInterval::from_intervals(outs)
    }

    /// Every rejected value: rays starting at the first rejected value on each
    /// finite side.
    pub fn off_out(&self, precision: i64) -> (r: MultiInterval)
        requires
            bva_ready(*self, precision),
        ensures
            same_points(r@, off_out_spec(*self, precision)),
    {
        let mut off_outs: Vec<Interval> = Vec::new();
        if self.lo != NEG_INFINITY {
            let end = self.lo - if self.lo_boundary == Boundary::Open { 0 } else { precision };
            match Interval::new_closed(NEG_INFINITY, end) {
                Ok(off_out_lo) => off_outs.push(off_out_lo),
                Err(_) => {},
            }
        }
        if self.hi != INFINITY {
            let start = self.hi + if self.hi_boundary == Boundary::Open { 0 } else { precision };
            match Interval::new_closed(start, INFINITY) {
                Ok(off_out_hi) => off_outs.push(off_out_hi),
                Err(_) => {},
            }
        }
        assert(off_outs@ =~= off_out_spec(*self, precision));
        MultiInterval::from_intervals(off_outs)
    }

    fn bva(&self, kind: BvaKind, precision: i64) -> (r: MultiInterval)
        requires
            bva_ready(*self, precision),
        ensures
            same_points(r@, kind_spec(kind, *self, precision)),
    {
        match kind {
            BvaKind::In => self.calc_in(precision),
            BvaKind::Out => self.out(precision),
            BvaKind::OffOut => self.off_out(precision),
            BvaKind::On => self.on(precision),
            BvaKind::Inin => self.inin(precision),
            BvaKind::Off => self.off(precision),
        }
    }
}

impl MultiInterval {
    /// One derivation on each interval, the results joined and normalized.
    fn bva_all_intervals(&self, kind: BvaKind, precision: i64) -> (r: MultiInterval)
        requires
            all_ready(self@, precision),
        ensures
            normalized(r@),
            forall|y: int| #[trigger] r.has(y) <==> kind_has(kind, self@, precision, y),
    {
        let ivs = self.intervals();
        let mut acc: Vec<Interval> = Vec::new();
        let n = ivs.len();
        for k in 0..n
            invariant
                n == self@.len(),
                ivs@ == self@,
                all_ready(self@, precision),
                all_wf(acc@),
                forall|y: int|
                    seq_has(acc@, y) <==> kind_has(kind, self@.take(k as int), precision, y),
        {
            let part = ivs[k].bva(kind, precision);
            let mut more = part.intervals().clone();
            let ghost old_acc = acc@;
            assert(more@ =~= part@);
            proof {
                assert forall|j: int| 0 <= j < more@.len() implies #[trigger] more@[j].wf() by {
                    assert(more@[j].proper());
                }
            }
            acc.append(&mut more);
            proof {
                assert forall|y: int| seq_has(acc@, y) <==> kind_has(
                    kind,
                    self@.take(k + 1),
                    precision,
                    y,
                ) by {
                    lemma_has_concat(old_acc, part@, y);
                    let t = self@.take(k + 1);
                    if kind_has(kind, t, precision, y) {
                        let j = choose|j: int|
                            0 <= j < t.len() && seq_has(kind_spec(kind, #[trigger] t[j], precision), y);
                        if j < k {
                            assert(self@.take(k as int)[j] == t[j]);
                        }
                    }
                    if kind_has(kind, self@.take(k as int), precision, y) {
                        let j = choose|j: int|
                            0 <= j < k && seq_has(kind_spec(kind, #[trigger] self@.take(k as int)[j], precision), y);
                        assert(t[j] == self@.take(k as int)[j]);
                    }
                    if seq_has(part@, y) {
                        assert(t[k as int] == self@[k as int]);
                    }
                }
            }
        }
        assert(self@.take(n as int) =~= self@);
        MultiInterval::from_intervals(acc)
    }

    /// `Interval::calc_in` on each interval, joined.
    pub fn calc_in(&self, precision: i64) -> (r: MultiInterval)
        requires
            all_ready(self@, precision),
        ensures
            normalized(r@),
            forall|y: int| #[trigger] r.has(y) <==> kind_has(BvaKind::In, self@, precision, y),
    {
        self.bva_all_intervals(BvaKind::In, precision)
    }

    /// `Interval::out` on each interval, joined.
    pub fn out(&self, precision: i64) -> (r: MultiInterval)
        requires
            all_ready(self@, precision),
        ensures
            normalized(r@),
            forall|y: int| #[trigger] r.has(y) <==> kind_has(BvaKind::Out, self@, precision, y),
    {
        self.bva_all_intervals(BvaKind::Out, precision)
    }

    /// `Interval::off_out` on each interval, joined.
    pub fn off_out(&self, precision: i64) -> (r: MultiInterval)
        requires
            all_ready(self@, precision),
        ensures
            normalized(r@),
            forall|y: int| #[trigger] r.has(y) <==> kind_has(BvaKind::OffOut, self@, precision, y),
    {
        self.bva_all_intervals(BvaKind::OffOut, precision)
    }

    /// `Interval::on` on each interval, joined.
    pub fn on(&self, precision: i64) -> (r: MultiInterval)
        requires
            all_ready(self@, precision),
        ensures
            normalized(r@),
            forall|y: int| #[trigger] r.has(y) <==> kind_has(BvaKind::On, self@, precision, y),
    {
        self.bva_all_intervals(BvaKind::On, precision)
    }

    /// `Interval::inin` on each interval, joined.
    pub fn inin(&self, precision: i64) -> (r: MultiInterval)
        requires
            all_ready(self@, precision),
        ensures
            normalized(r@),
            forall|y: int| #[trigger] r.has(y) <==> kind_has(BvaKind::Inin, self@, precision, y),
    {
        self.bva_all_intervals(BvaKind::Inin, precision)
    }

    /// `Interval::off` on each interval, joined.
    pub fn off(&self, precision: i64) -> (r: MultiInterval)
        requires
            all_ready(self@, precision),
        ensures
            normalized(r@),
            forall|y: int| #[trigger] r.has(y) <==> kind_has(BvaKind::Off, self@, precision, y),
    {
        self.bva_all_intervals(BvaKind::Off, precision)
    }
}

/// A normalized sequence whose values all lie on single closed points of `pts`
/// holds only single closed points.
proof fn lemma_points_only(r: Seq<Interval>, pts: Seq<Interval>)
    requires
        normalized(r),
        same_points(r, pts),
        forall|k: int|
            0 <= k < pts.len() ==> (#[trigger] pts[k]).lo == pts[k].hi && pts[k].lo_boundary
                == Boundary::Closed,
    ensures
        forall|k: int|
            0 <= k < r.len() ==> (#[trigger] r[k]).lo == r[k].hi && r[k].lo_boundary
                == Boundary::Closed && r[k].hi_boundary == Boundary::Closed,
{
    assert forall|k: int| 0 <= k < r.len() implies (#[trigger] r[k]).lo == r[k].hi
        && r[k].lo_boundary == Boundary::Closed && r[k].hi_boundary == Boundary::Closed by {
        assert(r[k].proper());
        if r[k].lo < r[k].hi {
            let y = 2 * r[k].lo + 1;
            assert(r[k].has(y));
            assert(seq_has(r, y));
            let j = choose|j: int| 0 <= j < pts.len() && #[trigger] pts[j].has(y);
            assert(pts[j].lo == pts[j].hi);
        }
    }
}

} // verus!
