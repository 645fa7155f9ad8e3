use vstd::prelude::*;
use crate::interval::{Interval, MultiInterval};

verus! {

#[derive(Debug, PartialEq, Eq, Structural, Clone, Copy)]
pub enum BoolExpression {
    IsTrue,
    IsFalse,
}

/// A condition on a boolean variable.
#[derive(Debug, PartialEq, Eq, Structural, Clone, Copy)]
pub struct BoolDTO {
    pub expression: BoolExpression,
    pub bool_val: bool,
    /// Always true whatever the requirements; gets no rejected variant.
    pub is_constant: bool,
}

/// The comparison a numeric condition was written with.
#[derive(Debug, PartialEq, Eq, Structural, Clone, Copy)]
pub enum Expression {
    LessThan,
    LessThanOrEqualTo,
    GreaterThan,
    GreaterThanOrEqualTo,
    EqualTo,
    NotEqualTo,
    Interval,
}

/// A condition on a numeric variable: the accepted values and the step
/// between neighbouring values of its type.
#[derive(Debug, PartialEq, Eq)]
pub struct IntervalDTO {
    pub expression: Expression,
    pub interval: MultiInterval,
    pub precision: i64,
    /// Always true whatever the requirements; gets no rejected variant.
    pub is_constant: bool,
}

/// The condition on one variable.
#[derive(Debug, PartialEq, Eq)]
pub enum Input {
    Bool(BoolDTO),
    Interval(IntervalDTO),
}

/// The conditions of one conjunction, by variable name. The derivations
/// keep the names as given; a graph of the resulting cases needs them unique.
#[derive(Debug, PartialEq, Eq)]
pub struct NTupleInput {
    pub inputs: Vec<(String, Input)>,
}

/// The value chosen for one variable of a test case.
#[derive(Debug, PartialEq, Eq, Clone, Copy)]
pub enum Output<T> {
    MissingVariable,
    Bool(bool),
    Interval(T),
}

/// One derived test vector whose numeric values may be unions of intervals.
#[derive(Debug, PartialEq, Eq)]
pub struct NTupleOutput {
    pub outputs: Vec<(String, Output<MultiInterval>)>,
}

/// One test case: one value, one interval or a wildcard per variable; names
/// are unique.
#[derive(Debug, PartialEq, Eq, Clone)]
pub struct NTupleSingleInterval {
    pub outputs: Vec<(String, Output<Interval>)>,
}

pub open spec fn output_view(o: Output<MultiInterval>) -> Output<Seq<Interval>> {
    match o {
        Output::MissingVariable => Output::MissingVariable,
        Output::Bool(b) => Output::Bool(b),
        Output::Interval(m) => Output::Interval(m@),
    }
}

impl View for NTupleOutput {
    type V = Seq<(Seq<char>, Output<Seq<Interval>>)>;

    open spec fn view(&self) -> Seq<(Seq<char>, Output<Seq<Interval>>)> {
        Seq::new(
            self.outputs@.len(),
            |i: int| (self.outputs@[i].0@, output_view(self.outputs@[i].1)),
        )
    }
}

impl View for NTupleSingleInterval {
    type V = Seq<(Seq<char>, Output<Interval>)>;

    open spec fn view(&self) -> Seq<(Seq<char>, Output<Interval>)> {
        entries_view(self.outputs@)
    }
}

/// The entries with each name seen as its characters.
pub open spec fn entries_view<T>(s: Seq<(String, T)>) -> Seq<(Seq<char>, T)> {
    Seq::new(s.len(), |i: int| (s[i].0@, s[i].1))
}

pub open spec fn keys_unique<T>(s: Seq<(Seq<char>, T)>) -> bool {
    forall|i: int, j: int| 0 <= i < j < s.len() ==> (#[trigger] s[i]).0 != (#[trigger] s[j]).0
}

pub open spec fn has_key<T>(s: Seq<(Seq<char>, T)>, k: Seq<char>) -> bool {
    exists|i: int| 0 <= i < s.len() && (#[trigger] s[i]).0 == k
}

/// What `s` maps `k` to.
pub open spec fn lookup<T>(s: Seq<(Seq<char>, T)>, k: Seq<char>) -> Option<T> {
    if has_key(s, k) {
        Some(s[choose|i: int| 0 <= i < s.len() && (#[trigger] s[i]).0 == k].1)
    } else {
        None
    }
}

/// Two values of a variable can hold at once; a wildcard blocks nothing.
pub open spec fn out_meets(a: Output<Interval>, b: Output<Interval>) -> bool {
    match (a, b) {
        (Output::MissingVariable, _) => true,
        (_, Output::MissingVariable) => true,
        (Output::Bool(x), Output::Bool(y)) => x == y,
        (Output::Interval(x), Output::Interval(y)) => x.intersects_spec(y),
        _ => false,
    }
}

/// The value that satisfies both; a wildcard yields the other side.
pub open spec fn out_meet(a: Output<Interval>, b: Output<Interval>) -> Output<Interval> {
    match (a, b) {
        (Output::MissingVariable, o) => o,
        (o, Output::MissingVariable) => o,
        (Output::Bool(x), Output::Bool(_)) => Output::Bool(x),
        (Output::Interval(x), Output::Interval(y)) => Output::Interval(x.meet(y)),
        _ => Output::MissingVariable,
    }
}

/// Every variable present in both can take a common value.
pub open spec fn tuple_meets(a: Seq<(Seq<char>, Output<Interval>)>, b: Seq<(Seq<char>, Output<Interval>)>) -> bool {
    forall|i: int, j: int|
        0 <= i < a.len() && 0 <= j < b.len() && (#[trigger] a[i]).0 == (#[trigger] b[j]).0
            ==> out_meets(a[i].1, b[j].1)
}

/// The entries of `b` whose variable `a` lacks, in `b`'s order.
pub open spec fn only_in<T>(b: Seq<(Seq<char>, T)>, a: Seq<(Seq<char>, T)>) -> Seq<(Seq<char>, T)>
    decreases b.len(),
{
    if b.len() == 0 {
        seq![]
    } else if has_key(a, b.last().0) {
        only_in(b.drop_last(), a)
    } else {
        only_in(b.drop_last(), a).push(b.last())
    }
}

/// Each variable of `a` with its value met with `b`'s, then the variables
/// only `b` has.
pub open spec fn tuple_meet(a: Seq<(Seq<char>, Output<Interval>)>, b: Seq<(Seq<char>, Output<Interval>)>) -> Seq<(Seq<char>, Output<Interval>)> {
    Seq::new(
        a.len(),
        |i: int|
            (a[i].0, match lookup(b, a[i].0) {
                Some(o) => out_meet(a[i].1, o),
                None => a[i].1,
            }),
    ) + only_in(b, a)
}

impl Output<Interval> {
    /// Whether both values can hold at once.
    pub fn intersects_with(&self, other: &Output<Interval>) -> (r: bool)
        ensures
            r == out_meets(*self, *other),
    {
        match (self, other) {
            (Output::MissingVariable, _) => true,
            (_, Output::MissingVariable) => true,
            (Output::Bool(this), Output::Bool(that)) => *this == *that,
            (Output::Interval(this), Output::Interval(that)) => this.intersects_with(that),
            _ => false,
        }
    }

    /// The value satisfying both, or `None` where there is none.
    pub fn intersect(&self, other: &Output<Interval>) -> (r: Option<Output<Interval>>)
        ensures
            r is None <==> !out_meets(*self, *other),
            r matches Some(o) ==> o == out_meet(*self, *other),
    {
        match self {
            Output::MissingVariable => Some(*other),
            Output::Bool(this) => match other {
                Output::MissingVariable => Some(*self),
                Output::Bool(that) => if *this == *that {
                    Some(Output::Bool(*this))
                } else {
                    None
                },
                Output::Interval(_) => None,
            },
            Output::Interval(this) => match other {
                Output::MissingVariable => Some(*self),
                Output::Bool(_) => None,
                Output::Interval(that) => match this.intersect(that) {
                    Some(i) => Some(Output::Interval(i)),
                    None => None,
                },
            },
        }
    }
}

/// The index of `key` in `s`, if present.
fn find_key(s: &Vec<(String, Output<Interval>)>, key: &String) -> (r: Option<usize>)
    ensures
        r is None <==> !has_key(entries_view(s@), key@),
        r matches Some(i) ==> i < s@.len() && s@[i as int].0@ == key@,
{
    let ghost v = entries_view(s@);
    let n = s.len();
    for i in 0..n
        invariant
            n == s@.len(),
            v == entries_view(s@),
            forall|j: int| 0 <= j < i ==> (#[trigger] v[j]).0 != key@,
    {
        if s[i].0 == *key {
            assert(v[i as int].0 == key@);
            return Some(i);
        }
    }
    None
}

impl NTupleSingleInterval {
    pub open spec fn wf(&self) -> bool {
        keys_unique(self@)
    }

    /// Whether every variable present in both can take a common value.
    pub fn intersects_with(&self, other: &NTupleSingleInterval) -> (r: bool)
        ensures
            r == tuple_meets(self@, other@),
    {
        let n = self.outputs.len();
        let m = other.outputs.len();
        for i in 0..n
            invariant
                n == self@.len(),
                m == other@.len(),
                forall|a: int, b: int|
                    0 <= a < i && 0 <= b < m && (#[trigger] self@[a]).0 == (#[trigger] other@[b]).0
                        ==> out_meets(self@[a].1, other@[b].1),
        {
            for j in 0..m
                invariant
                    n == self@.len(),
                    m == other@.len(),
                    i < n,
                    forall|a: int, b: int|
                        0 <= a < i && 0 <= b < m && (#[trigger] self@[a]).0 == (
                        #[trigger] other@[b]).0 ==> out_meets(self@[a].1, other@[b].1),
                    forall|b: int|
                        0 <= b < j && self@[i as int].0 == (#[trigger] other@[b]).0 ==> out_meets(
                            self@[i as int].1,
                            other@[b].1,
                        ),
            {
                if self.outputs[i].0 == other.outputs[j].0 {
                    if !self.outputs[i].1.intersects_with(&other.outputs[j].1) {
                        assert(self@[i as int].0 == other@[j as int].0);
                        return false;
                    }
                }
            }
        }
        true
    }

    /// The test case satisfying both, or `None` where some shared variable
    /// has no common value.
    pub fn intersect(&self, other: &NTupleSingleInterval) -> (r: Option<NTupleSingleInterval>)
        requires
            self.wf(),
            other.wf(),
        ensures
            r is None <==> !tuple_meets(self@, other@),
            r matches Some(t) ==> t@ == tuple_meet(self@, other@),
    {
        if !self.intersects_with(other) {
            return None;
        }
        let mut outputs: Vec<(String, Output<Interval>)> = Vec::new();
        let n = self.outputs.len();
        let m = other.outputs.len();
        let ghost a = self@;
        let ghost b = other@;
        let ghost first = Seq::new(
            a.len(),
            |i: int|
                (a[i].0, match lookup(b, a[i].0) {
                    Some(o) => out_meet(a[i].1, o),
                    None => a[i].1,
                }),
        );
        for i in 0..n
            invariant
                n == a.len(),
                m == b.len(),
                a == self@,
                b == other@,
                keys_unique(b),
                tuple_meets(a, b),
                first.len() == n,
                forall|k: int| 0 <= k < n ==> #[trigger] first[k] == (a[k].0, match lookup(b, a[k].0) {
                    Some(o) => out_meet(a[k].1, o),
                    None => a[k].1,
                }),
                entries_view(outputs@) == first.take(i as int),
        {
            let key = self.outputs[i].0.clone();
            let out = match find_key(&other.outputs, &key) {
                Some(j) => {
                    proof {
                        assert(b[j as int].0 == a[i as int].0);
                        assert(has_key(b, a[i as int].0));
                        let c = choose|c: int| 0 <= c < b.len() && (#[trigger] b[c]).0 == a[i as int].0;
                        assert(c == j);
                        assert(out_meets(a[i as int].1, b[j as int].1));
                    }
                    match self.outputs[i].1.intersect(&other.outputs[j].1) {
                        Some(o) => o,
                        None => Output::MissingVariable,
                    }
                },
                None => self.outputs[i].1,
            };
            let ghost before_push = entries_view(outputs@);
            let ghost kv = key@;
            outputs.push((key, out));
            assert(out == first[i as int].1);
            assert(kv == first[i as int].0);
            assert(entries_view(outputs@) =~= before_push.push((kv, out)));
            assert(entries_view(outputs@) =~= first.take(i + 1));
        }
        assert(first.take(n as int) =~= first);
        let ghost done = entries_view(outputs@);
        for j in 0..m
            invariant
                n == a.len(),
                m == b.len(),
                a == self@,
                b == other@,
                entries_view(outputs@) == first + only_in(b.take(j as int), a),
        {
            let key = &other.outputs[j].0;
            assert(b.take(j + 1).drop_last() =~= b.take(j as int));
            assert(b.take(j + 1).last() == b[j as int]);
            let ghost before_push = entries_view(outputs@);
            match find_key(&self.outputs, key) {
                Some(_) => {
                    assert(only_in(b.take(j + 1), a) == only_in(b.take(j as int), a));
                },
                None => {
                    assert(only_in(b.take(j + 1), a) == only_in(b.take(j as int), a).push(b[j as int]));
                    outputs.push((key.clone(), other.outputs[j].1));
                    assert(entries_view(outputs@) =~= before_push.push(b[j as int]));
                    assert(entries_view(outputs@) =~= first + only_in(
                        b.take(j + 1),
                        a,
                    ));
                },
            }
        }
        assert(b.take(m as int) =~= b);
        Some(NTupleSingleInterval { outputs })
    }
}


/// Names are unique and every interval is well formed.
pub open spec fn case_ok(t: Seq<(Seq<char>, Output<Interval>)>) -> bool {
    &&& keys_unique(t)
    &&& forall|k: int|
        0 <= k < t.len() ==> match (#[trigger] t[k]).1 {
            Output::Interval(i) => i.wf(),
            _ => true,
        }
}

proof fn lemma_only_in(b: Seq<(Seq<char>, Output<Interval>)>, a: Seq<(Seq<char>, Output<Interval>)>)
    ensures
        forall|k: int|
            0 <= k < only_in(b, a).len() ==> b.contains(#[trigger] only_in(b, a)[k]) && !has_key(
                a,
                only_in(b, a)[k].0,
            ),
        keys_unique(b) ==> keys_unique(only_in(b, a)),
    decreases b.len(),
{
    if b.len() > 0 {
        let rest = b.drop_last();
        lemma_only_in(rest, a);
        let o = only_in(b, a);
        assert forall|k: int| 0 <= k < o.len() implies b.contains(#[trigger] o[k]) && !has_key(a, o[k].0) by {
            if k < only_in(rest, a).len() {
                assert(o[k] == only_in(rest, a)[k]);
                let w = choose|w: int| 0 <= w < rest.len() && rest[w] == o[k];
                assert(b[w] == rest[w]);
            } else {
                assert(o[k] == b.last());
                assert(b[b.len() - 1] == b.last());
            }
        }
        if keys_unique(b) {
            assert(keys_unique(rest)) by {
                assert forall|i: int, j: int| 0 <= i < j < rest.len() implies (#[trigger] rest[i]).0 != (#[trigger] rest[j]).0 by {
                    assert(rest[i] == b[i]);
                    assert(rest[j] == b[j]);
                }
            }
            if !has_key(a, b.last().0) {
                assert forall|i: int, j: int| 0 <= i < j < o.len() implies (#[trigger] o[i]).0 != (#[trigger] o[j]).0 by {
                    let r = only_in(rest, a);
                    if j < r.len() {
                        assert(o[i] == r[i]);
                        assert(o[j] == r[j]);
                    } else {
                        assert(o[j] == b.last());
                        assert(o[i] == r[i]);
                        assert(rest.contains(r[i]));
                        let w = choose|w: int| 0 <= w < rest.len() && rest[w] == r[i];
                        assert(b[w] == rest[w]);
                        assert(b[b.len() - 1] == b.last());
                    }
                }
            }
        }
    }
}

/// Meeting two well-formed test cases that can hold together gives a
/// well-formed test case.
pub proof fn lemma_meet_ok(a: Seq<(Seq<char>, Output<Interval>)>, b: Seq<(Seq<char>, Output<Interval>)>)
    requires
        case_ok(a),
        case_ok(b),
        tuple_meets(a, b),
    ensures
        case_ok(tuple_meet(a, b)),
{
    let m = tuple_meet(a, b);
    let o = only_in(b, a);
    lemma_only_in(b, a);
    assert forall|k: int| 0 <= k < m.len() implies match (#[trigger] m[k]).1 {
        Output::Interval(i) => i.wf(),
        _ => true,
    } by {
        if k < a.len() {
            assert(m[k].0 == a[k].0);
            if has_key(b, a[k].0) {
                let j = choose|j: int| 0 <= j < b.len() && (#[trigger] b[j]).0 == a[k].0;
                assert(out_meets(a[k].1, b[j].1));
                assert(match a[k].1 {
                    Output::Interval(i) => i.wf(),
                    _ => true,
                });
                assert(match b[j].1 {
                    Output::Interval(i) => i.wf(),
                    _ => true,
                });
            } else {
                assert(match a[k].1 {
                    Output::Interval(i) => i.wf(),
                    _ => true,
                });
            }
        } else {
            assert(m[k] == o[k - a.len()]);
            assert(b.contains(o[k - a.len()]));
            let w = choose|w: int| 0 <= w < b.len() && b[w] == o[k - a.len()];
            assert(match b[w].1 {
                Output::Interval(i) => i.wf(),
                _ => true,
            });
        }
    }
    assert forall|i: int, j: int| 0 <= i < j < m.len() implies (#[trigger] m[i]).0 != (#[trigger] m[j]).0 by {
        if j < a.len() {
            assert(m[i].0 == a[i].0);
            assert(m[j].0 == a[j].0);
        } else if i < a.len() {
            assert(m[i].0 == a[i].0);
            assert(m[j] == o[j - a.len()]);
            assert(!has_key(a, o[j - a.len()].0));
        } else {
            assert(m[i] == o[i - a.len()]);
            assert(m[j] == o[j - a.len()]);
        }
    }
}


/// Whether two test cases can hold together does not depend on their order.
pub proof fn lemma_meets_symmetric(a: Seq<(Seq<char>, Output<Interval>)>, b: Seq<(Seq<char>, Output<Interval>)>)
    ensures
        tuple_meets(a, b) == tuple_meets(b, a),
{
    if tuple_meets(a, b) {
        assert forall|i: int, j: int| 0 <= i < b.len() && 0 <= j < a.len() && (#[trigger] b[i]).0 == (#[trigger] a[j]).0 implies out_meets(b[i].1, a[j].1) by {
            assert(out_meets(a[j].1, b[i].1));
        }
    }
    if tuple_meets(b, a) {
        assert forall|i: int, j: int| 0 <= i < a.len() && 0 <= j < b.len() && (#[trigger] a[i]).0 == (#[trigger] b[j]).0 implies out_meets(a[i].1, b[j].1) by {
            assert(out_meets(b[j].1, a[i].1));
        }
    }
}


proof fn lemma_only_in_none(b: Seq<(Seq<char>, Output<Interval>)>, a: Seq<(Seq<char>, Output<Interval>)>)
    requires
        forall|k: int| 0 <= k < b.len() ==> has_key(a, (#[trigger] b[k]).0),
    ensures
        only_in(b, a).len() == 0,
    decreases b.len(),
{
    if b.len() > 0 {
        assert(has_key(a, b[b.len() - 1].0));
        assert forall|k: int| 0 <= k < b.drop_last().len() implies has_key(a, (#[trigger] b.drop_last()[k]).0) by {
            assert(b.drop_last()[k] == b[k]);
        }
        lemma_only_in_none(b.drop_last(), a);
    }
}

/// Every interval is well formed and holds a value.
pub open spec fn intervals_proper(t: Seq<(Seq<char>, Output<Interval>)>) -> bool {
    forall|k: int|
        0 <= k < t.len() ==> match (#[trigger] t[k]).1 {
            Output::Interval(i) => i.proper(),
            _ => true,
        }
}

/// A test case with unique names and non-empty intervals holds together with
/// itself, and meeting it with itself gives it back.
pub proof fn lemma_intersect_self(a: Seq<(Seq<char>, Output<Interval>)>)
    requires
        keys_unique(a),
        intervals_proper(a),
    ensures
        tuple_meets(a, a),
        tuple_meet(a, a) == a,
{
    assert forall|i: int, j: int| 0 <= i < a.len() && 0 <= j < a.len() && (#[trigger] a[i]).0 == (#[trigger] a[j]).0 implies out_meets(a[i].1, a[j].1) by {
        if i != j {
            if i < j {
                assert(a[i].0 != a[j].0);
            } else {
                assert(a[j].0 != a[i].0);
            }
        }
        assert(match a[i].1 {
            Output::Interval(x) => x.proper(),
            _ => true,
        });
    }
    assert forall|k: int| 0 <= k < a.len() implies has_key(a, (#[trigger] a[k]).0) by {}
    lemma_only_in_none(a, a);
    let m = tuple_meet(a, a);
    assert forall|i: int| 0 <= i < a.len() implies #[trigger] m[i] == a[i] by {
        assert(has_key(a, a[i].0));
        let c = choose|c: int| 0 <= c < a.len() && (#[trigger] a[c]).0 == a[i].0;
        if c != i {
            if c < i {
                assert(a[c].0 != a[i].0);
            } else {
                assert(a[i].0 != a[c].0);
            }
        }
        assert(lookup(a, a[i].0) == Some(a[i].1));
        assert(match a[i].1 {
            Output::Interval(x) => x.proper(),
            _ => true,
        });
    }
    assert(m =~= a);
}


/// Unique names and non-empty intervals make a well-formed test case.
pub proof fn lemma_case_ok(t: Seq<(Seq<char>, Output<Interval>)>)
    requires
        keys_unique(t),
        intervals_proper(t),
    ensures
        case_ok(t),
{
    assert forall|k: int| 0 <= k < t.len() implies match (#[trigger] t[k]).1 {
        Output::Interval(i) => i.wf(),
        _ => true,
    } by {
        assert(match t[k].1 {
            Output::Interval(i) => i.proper(),
            _ => true,
        });
    }
}

} // verus!
