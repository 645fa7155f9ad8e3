use vstd::prelude::*;
use crate::bva::{all_ready, kind_has, ready, BvaKind};
use crate::dto::{
    entries_view, intervals_proper, keys_unique, output_view, BoolDTO, Input, IntervalDTO, NTupleInput, NTupleOutput,
    NTupleSingleInterval, Output,
};
use crate::interval::{normalized, Interval, IntervalError, MultiInterval};
use crate::util::UniquesVec;

verus! {

/// Which value a derived test vector gives a variable.
#[derive(Debug, PartialEq, Eq, Structural, Clone, Copy)]
pub enum Derivation {
    /// `in`, falling back to `on` where `in` is empty.
    In,
    On,
    /// `inin`, falling back to `on` where `inin` is empty.
    Inin,
    /// The other boolean value.
    Flip,
    Off,
    Out,
}

pub open spec fn some_value(kind: BvaKind, s: Seq<Interval>, p: i64) -> bool {
    exists|y: int| kind_has(kind, s, p, y)
}

/// The value `y / 2` is among the values the derivation picks from `s`.
pub open spec fn derived_has(s: Seq<Interval>, p: i64, d: Derivation, y: int) -> bool {
    match d {
        Derivation::In => if some_value(BvaKind::In, s, p) {
            kind_has(BvaKind::In, s, p, y)
        } else {
            kind_has(BvaKind::On, s, p, y)
        },
        Derivation::On => kind_has(BvaKind::On, s, p, y),
        Derivation::Inin => if some_value(BvaKind::Inin, s, p) {
            kind_has(BvaKind::Inin, s, p, y)
        } else {
            kind_has(BvaKind::On, s, p, y)
        },
        Derivation::Off => kind_has(BvaKind::Off, s, p, y),
        Derivation::Out => kind_has(BvaKind::Out, s, p, y),
        Derivation::Flip => false,
    }
}

/// The three accepted-value derivations keep a constant as it is.
pub open spec fn keeps_constant(d: Derivation) -> bool {
    d == Derivation::In || d == Derivation::On || d == Derivation::Inin
}

/// `o` is what derivation `d` gives a variable with condition `inp`.
pub open spec fn out_ok(o: Output<MultiInterval>, inp: Input, d: Derivation) -> bool {
    match inp {
        Input::Bool(b) => o == Output::<MultiInterval>::Bool(
            if d == Derivation::Flip {
                !b.bool_val
            } else {
                b.bool_val
            },
        ),
        Input::Interval(c) => match o {
            Output::Interval(m) => if c.is_constant && keeps_constant(d) {
                m@ == c.interval@
            } else {
                forall|y: int| #[trigger] m.has(y) <==> derived_has(c.interval@, c.precision, d, y)
            },
            _ => false,
        },
    }
}

/// Every condition on a number can be derived from.
pub open spec fn inputs_ready(s: Seq<(String, Input)>) -> bool {
    forall|k: int|
        0 <= k < s.len() ==> match #[trigger] s[k].1 {
            Input::Interval(c) => all_ready(c.interval@, c.precision),
            _ => true,
        }
}

/// `t` gives each variable of `inputs`, in order, what `d` of its index picks.
pub open spec fn tuple_ok(t: NTupleOutput, inputs: Seq<(String, Input)>, d: spec_fn(int) -> Derivation) -> bool {
    &&& t.outputs@.len() == inputs.len()
    &&& forall|k: int|
        0 <= k < inputs.len() ==> (#[trigger] t.outputs@[k]).0@ == inputs[k].0@ && out_ok(
            t.outputs@[k].1,
            inputs[k].1,
            d(k),
        )
}

/// The variants that reject one variable at a time, in input order: a flipped
/// value for a boolean, `off` and then `out` for a number; none for a constant.
pub open spec fn rejections(s: Seq<(String, Input)>) -> Seq<(int, Derivation)>
    decreases s.len(),
{
    if s.len() == 0 {
        seq![]
    } else {
        let k = s.len() - 1;
        rejections(s.drop_last()) + match s.last().1 {
            Input::Bool(b) => if b.is_constant {
                seq![]
            } else {
                seq![(k, Derivation::Flip)]
            },
            Input::Interval(c) => if c.is_constant {
                seq![]
            } else {
                seq![(k, Derivation::Off), (k, Derivation::Out)]
            },
        }
    }
}

/// The derivation for variable `k` in the rejecting variant `v`.
pub open spec fn variant(v: (int, Derivation)) -> spec_fn(int) -> Derivation {
    |k: int| if k == v.0 { v.1 } else { Derivation::In }
}

fn derive_output(inp: &Input, d: Derivation) -> (o: Output<MultiInterval>)
    requires
        match *inp {
            Input::Interval(c) => all_ready(c.interval@, c.precision),
            _ => true,
        },
        d == Derivation::Flip ==> inp is Bool,
        inp is Bool ==> d == Derivation::Flip || keeps_constant(d),
    ensures
        out_ok(o, *inp, d),
{
    match inp {
        Input::Bool(BoolDTO { bool_val, .. }) => Output::Bool(
            if d == Derivation::Flip {
                !*bool_val
            } else {
                *bool_val
            },
        ),
        Input::Interval(IntervalDTO { interval, precision, is_constant, .. }) => {
            if *is_constant && (d == Derivation::In || d == Derivation::On || d
                == Derivation::Inin) {
                return Output::Interval(interval.duplicate());
            }
            let m = match d {
                Derivation::In => {
                    let x = interval.calc_in(*precision);
                    if x.is_empty() {
                        proof {
                            assert forall|y: int| !kind_has(BvaKind::In, interval@, *precision, y) by {
                                assert(!x.has(y));
                            }
                        }
                        interval.on(*precision)
                    } else {
                        proof {
                            let y0 = x@[0].lo * 2 + 1;
                            let y1 = x@[0].lo * 2;
                            assert(x@[0].proper());
                            if x@[0].lo < x@[0].hi {
                                assert(x@[0].has(y0));
                                assert(x.has(y0));
                            } else {
                                assert(x@[0].has(y1));
                                assert(x.has(y1));
                            }
                        }
                        x
                    }
                },
                Derivation::Inin => {
                    let x = interval.inin(*precision);
                    if x.is_empty() {
                        proof {
                            assert forall|y: int| !kind_has(BvaKind::Inin, interval@, *precision, y) by {
                                assert(!x.has(y));
                            }
                        }
                        interval.on(*precision)
                    } else {
                        proof {
                            let y0 = x@[0].lo * 2 + 1;
                            let y1 = x@[0].lo * 2;
                            assert(x@[0].proper());
                            if x@[0].lo < x@[0].hi {
                                assert(x@[0].has(y0));
                                assert(x.has(y0));
                            } else {
                                assert(x@[0].has(y1));
                                assert(x.has(y1));
                            }
                        }
                        x
                    }
                },
                Derivation::On => interval.on(*precision),
                Derivation::Off => interval.off(*precision),
                _ => interval.out(*precision),
            };
            Output::Interval(m)
        },
    }
}


/// Each variable of `ntuple` given what `d` picks for it.
fn input_to_output(ntuple: &NTupleInput, d: Derivation) -> (r: NTupleOutput)
    requires
        inputs_ready(ntuple.inputs@),
        d != Derivation::Flip,
        d != Derivation::Off,
        d != Derivation::Out,
    ensures
        tuple_ok(r, ntuple.inputs@, |k: int| d),
{
    let mut outputs: Vec<(String, Output<MultiInterval>)> = Vec::new();
    let n = ntuple.inputs.len();
    for k in 0..n
        invariant
            n == ntuple.inputs@.len(),
            inputs_ready(ntuple.inputs@),
            d != Derivation::Flip,
            d != Derivation::Off,
            d != Derivation::Out,
            outputs@.len() == k,
            forall|j: int|
                0 <= j < k ==> (#[trigger] outputs@[j]).0@ == ntuple.inputs@[j].0@ && out_ok(
                    outputs@[j].1,
                    ntuple.inputs@[j].1,
                    d,
                ),
    {
        let entry = &ntuple.inputs[k];
        assert(match ntuple.inputs@[k as int].1 {
            Input::Interval(c) => all_ready(c.interval@, c.precision),
            _ => true,
        });
        let o = derive_output(&entry.1, d);
        outputs.push((entry.0.clone(), o));
    }
    NTupleOutput { outputs }
}

/// The three accepted-value vectors: `in`, `on` and `inin` for every number.
fn calc_in_on_inin(ntuple: &NTupleInput) -> (r: Vec<NTupleOutput>)
    requires
        inputs_ready(ntuple.inputs@),
    ensures
        r@.len() == 3,
        tuple_ok(r@[0], ntuple.inputs@, |k: int| Derivation::In),
        tuple_ok(r@[1], ntuple.inputs@, |k: int| Derivation::On),
        tuple_ok(r@[2], ntuple.inputs@, |k: int| Derivation::Inin),
{
    let ins = input_to_output(ntuple, Derivation::In);
    let ons = input_to_output(ntuple, Derivation::On);
    let inins = input_to_output(ntuple, Derivation::Inin);
    vec![ins, ons, inins]
}

/// The vector the rejecting variants start from: `in` for every number,
/// falling back to `on` where `in` is empty; constants keep their range.
fn baseline(ntuple: &NTupleInput) -> (r: NTupleOutput)
    requires
        inputs_ready(ntuple.inputs@),
    ensures
        tuple_ok(r, ntuple.inputs@, |k: int| Derivation::In),
{
    input_to_output(ntuple, Derivation::In)
}

fn duplicate_output(o: &Output<MultiInterval>) -> (r: Output<MultiInterval>)
    ensures
        output_view(r) == output_view(*o),
        match (*o, r) {
            (Output::Interval(a), Output::Interval(b)) => a@ == b@,
            (Output::Interval(_), _) => false,
            _ => r == *o,
        },
{
    match o {
        Output::MissingVariable => Output::MissingVariable,
        Output::Bool(b) => Output::Bool(*b),
        Output::Interval(m) => Output::Interval(m.duplicate()),
    }
}

impl NTupleOutput {
    /// An equal copy.
    pub fn duplicate(&self) -> (r: NTupleOutput)
        ensures
            r@ == self@,
            r.outputs@.len() == self.outputs@.len(),
            forall|k: int|
                0 <= k < self.outputs@.len() ==> (#[trigger] r.outputs@[k]).0@ == self.outputs@[k].0@
                    && match (self.outputs@[k].1, r.outputs@[k].1) {
                    (Output::Interval(a), Output::Interval(b)) => a@ == b@,
                    (Output::Interval(_), _) => false,
                    (x, y) => x == y,
                },
    {
        let mut outputs: Vec<(String, Output<MultiInterval>)> = Vec::new();
        let n = self.outputs.len();
        for k in 0..n
            invariant
                n == self.outputs@.len(),
                outputs@.len() == k,
                forall|j: int|
                    0 <= j < k ==> (#[trigger] outputs@[j]).0@ == self.outputs@[j].0@
                        && match (self.outputs@[j].1, outputs@[j].1) {
                        (Output::Interval(a), Output::Interval(b)) => a@ == b@,
                        (Output::Interval(_), _) => false,
                        (x, y) => x == y,
                    },
        {
            let o = duplicate_output(&self.outputs[k].1);
            outputs.push((self.outputs[k].0.clone(), o));
        }
        let r = NTupleOutput { outputs };
        assert forall|k: int| 0 <= k < n implies #[trigger] r@[k] == self@[k] by {
            let a = self.outputs@[k].1;
            let b = r.outputs@[k].1;
            assert(output_view(a) == output_view(b));
        }
        assert(r@ =~= self@);
        r
    }

    /// Whether both give every variable, in the same order, the same value.
    pub fn equals(&self, other: &NTupleOutput) -> (r: bool)
        ensures
            r == (self@ == other@),
    {
        if self.outputs.len() != other.outputs.len() {
            assert(self@.len() != other@.len());
            return false;
        }
        let n = self.outputs.len();
        for k in 0..n
            invariant
                n == self@.len(),
                n == other@.len(),
                forall|j: int| 0 <= j < k ==> self@[j] == other@[j],
        {
            if self.outputs[k].0 != other.outputs[k].0 {
                assert(self@[k as int] != other@[k as int]);
                return false;
            }
            let same = match (&self.outputs[k].1, &other.outputs[k].1) {
                (Output::MissingVariable, Output::MissingVariable) => true,
                (Output::Bool(a), Output::Bool(b)) => *a == *b,
                (Output::Interval(a), Output::Interval(b)) => a.equals(b),
                _ => false,
            };
            if !same {
                assert(self@[k as int].1 != other@[k as int].1);
                return false;
            }
            assert(self@[k as int] == other@[k as int]);
        }
        assert(self@ =~= other@);
        true
    }
}

/// One rejecting variant per non-constant variable: the other boolean value,
/// or `off` and then `out` for a number; every other variable keeps its
/// baseline value.
#[verifier::loop_isolation(false)]
fn off_out(ntuple: &NTupleInput) -> (r: Vec<NTupleOutput>)
    requires
        inputs_ready(ntuple.inputs@),
    ensures
        r@.len() == rejections(ntuple.inputs@).len(),
        forall|j: int|
            0 <= j < r@.len() ==> tuple_ok(
                #[trigger] r@[j],
                ntuple.inputs@,
                variant(rejections(ntuple.inputs@)[j]),
            ),
{
    let mut output: Vec<NTupleOutput> = Vec::new();
    let base = baseline(ntuple);
    let ghost inputs = ntuple.inputs@;
    let n = ntuple.inputs.len();
    for i in 0..n
        invariant
            n == inputs.len(),
            inputs == ntuple.inputs@,
            inputs_ready(inputs),
            tuple_ok(base, inputs, |k: int| Derivation::In),
            output@.len() == rejections(inputs.take(i as int)).len(),
            forall|j: int|
                0 <= j < output@.len() ==> tuple_ok(
                    #[trigger] output@[j],
                    inputs,
                    variant(rejections(inputs.take(i as int))[j]),
                ),
    {
        let ghost before = output@;
        let ghost pre = rejections(inputs.take(i as int));
        assert(inputs.take(i + 1).drop_last() =~= inputs.take(i as int));
        assert(inputs.take(i + 1).last() == inputs[i as int]);
        let entry = &ntuple.inputs[i];
        assert(match inputs[i as int].1 {
            Input::Interval(c) => all_ready(c.interval@, c.precision),
            _ => true,
        });
        let variants: Vec<Derivation> = match &entry.1 {
            Input::Bool(b) => if b.is_constant {
                vec![]
            } else {
                vec![Derivation::Flip]
            },
            Input::Interval(c) => if c.is_constant {
                vec![]
            } else {
                vec![Derivation::Off, Derivation::Out]
            },
        };
        let ghost added = Seq::new(variants@.len(), |q: int| (i as int, variants@[q]));
        assert(rejections(inputs.take(i + 1)) =~= pre + added);
        let m = variants.len();
        for q in 0..m
            invariant
                n == inputs.len(),
                i < n,
                inputs == ntuple.inputs@,
                tuple_ok(base, inputs, |k: int| Derivation::In),
                m == variants@.len(),
                added.len() == m,
                forall|t: int| 0 <= t < m ==> #[trigger] added[t] == (i as int, variants@[t]),
                forall|t: int| 0 <= t < m ==> (#[trigger] variants@[t] == Derivation::Flip <==> inputs[i as int].1 is Bool),
                forall|t: int| 0 <= t < m ==> #[trigger] variants@[t] != Derivation::In && variants@[t] != Derivation::On && variants@[t] != Derivation::Inin,
                match inputs[i as int].1 {
                    Input::Interval(c) => all_ready(c.interval@, c.precision),
                    _ => true,
                },
                output@.len() == before.len() + q,
                forall|j: int| 0 <= j < before.len() ==> #[trigger] output@[j] == before[j],
                forall|j: int|
                    0 <= j < before.len() ==> tuple_ok(
                        #[trigger] before[j],
                        inputs,
                        variant(pre[j]),
                    ),
                forall|t: int|
                    0 <= t < q ==> tuple_ok(
                        #[trigger] output@[before.len() + t],
                        inputs,
                        variant(added[t]),
                    ),
        {
            let d = variants[q];
            let o = derive_output(&entry.1, d);
            let mut changed = base.duplicate();
            changed.outputs.set(i, (entry.0.clone(), o));
            proof {
                let f = variant(added[q as int]);
                assert forall|k: int| 0 <= k < inputs.len() implies (#[trigger] changed.outputs@[k]).0@
                    == inputs[k].0@ && out_ok(changed.outputs@[k].1, inputs[k].1, f(k)) by {
                    if k != i {
                        assert(out_ok(base.outputs@[k].1, inputs[k].1, Derivation::In));
                        match (base.outputs@[k].1, changed.outputs@[k].1) {
                            (Output::Interval(a), Output::Interval(b)) => {
                                assert(a@ == b@);
                                assert forall|y: int| a.has(y) <==> b.has(y) by {}
                            },
                            _ => {},
                        }
                    }
                }
            }
            output.push(changed);
        }
        proof {
            assert forall|j: int| 0 <= j < output@.len() implies tuple_ok(
                #[trigger] output@[j],
                inputs,
                variant(rejections(inputs.take(i + 1))[j]),
            ) by {
                if j < before.len() {
                    assert(output@[j] == before[j]);
                    assert(rejections(inputs.take(i + 1))[j] == pre[j]);
                } else {
                    let t = j - before.len();
                    assert(before.len() + t == j);
                    assert(tuple_ok(output@[before.len() + t], inputs, variant(added[t])));
                    assert(rejections(inputs.take(i + 1))[j] == added[t]);
                }
            }
        }
    }
    assert(inputs.take(n as int) =~= inputs);
    output
}


/// `x` is an allowed value for a variable whose derived value is `o`: any of
/// its intervals when `any`, else its first one.
pub open spec fn picks(x: Output<Interval>, o: Output<Seq<Interval>>, any: bool) -> bool {
    match o {
        Output::MissingVariable => x == Output::<Interval>::MissingVariable,
        Output::Bool(b) => x == Output::<Interval>::Bool(b),
        Output::Interval(s) => match x {
            Output::Interval(i) => if any {
                s.contains(i)
            } else {
                s.len() > 0 && i == s[0]
            },
            _ => false,
        },
    }
}

/// `t` picks, for each variable below `v`, one of the intervals of `o`, and
/// the first interval for every later variable.
pub open spec fn choice_upto(t: Seq<(Seq<char>, Output<Interval>)>, o: Seq<(Seq<char>, Output<Seq<Interval>>)>, v: int) -> bool {
    &&& t.len() == o.len()
    &&& forall|k: int| 0 <= k < o.len() ==> (#[trigger] t[k]).0 == o[k].0 && picks(t[k].1, o[k].1, k < v)
}

/// `t` is one test case expanded from `o`: each variable holds one of the
/// intervals derived for it.
pub open spec fn choice(t: Seq<(Seq<char>, Output<Interval>)>, o: Seq<(Seq<char>, Output<Seq<Interval>>)>) -> bool {
    choice_upto(t, o, o.len() as int)
}

pub open spec fn holds_case(s: Seq<NTupleSingleInterval>, t: Seq<(Seq<char>, Output<Interval>)>) -> bool {
    exists|i: int| 0 <= i < s.len() && (#[trigger] s[i])@ == t
}

impl NTupleSingleInterval {
    /// An equal copy.
    pub fn duplicate(&self) -> (r: NTupleSingleInterval)
        ensures
            r@ == self@,
    {
        let mut outputs: Vec<(String, Output<Interval>)> = Vec::new();
        let n = self.outputs.len();
        for k in 0..n
            invariant
                n == self.outputs@.len(),
                entries_view(outputs@) == self@.take(k as int),
        {
            let ghost before = entries_view(outputs@);
            outputs.push((self.outputs[k].0.clone(), self.outputs[k].1));
            assert(entries_view(outputs@) =~= before.push(self@[k as int]));
            assert(entries_view(outputs@) =~= self@.take(k + 1));
        }
        assert(self@.take(n as int) =~= self@);
        NTupleSingleInterval { outputs }
    }
}

/// `t` is an earlier case `old[src]` with variable `v` set to interval `lvl`
/// of `s`, where `(lvl, src)` comes before `(j, x)`.
pub open spec fn made_from(
    t: Seq<(Seq<char>, Output<Interval>)>,
    old: Seq<NTupleSingleInterval>,
    cur: int,
    v: int,
    key: Seq<char>,
    s: Seq<Interval>,
    j: int,
    x: int,
) -> bool {
    exists|src: int, lvl: int|
        0 <= src < cur && 1 <= lvl < s.len() && (lvl < j || (lvl == j && src < x)) && t == old[src]@.update(
            v,
            (key, Output::Interval(s[lvl])),
        )
}

proof fn lemma_new_case_differs(
    before: Seq<NTupleSingleInterval>,
    old: Seq<NTupleSingleInterval>,
    cur: int,
    v: int,
    o: Seq<(Seq<char>, Output<Seq<Interval>>)>,
    s: Seq<Interval>,
    j: int,
    x: int,
    y: Seq<(Seq<char>, Output<Interval>)>,
)
    requires
        0 <= v < o.len(),
        o[v].1 == Output::<Seq<Interval>>::Interval(s),
        normalized(s),
        1 <= j < s.len(),
        0 <= x < cur,
        cur <= before.len(),
        old.len() == cur,
        forall|i: int| 0 <= i < cur ==> #[trigger] before[i] == old[i],
        forall|i: int| 0 <= i < cur ==> choice_upto((#[trigger] old[i])@, o, v),
        forall|i: int, i2: int| 0 <= i < i2 < before.len() ==> (#[trigger] before[i])@ != (#[trigger] before[i2])@,
        forall|i: int| cur <= i < before.len() ==> #[trigger] made_from(before[i]@, old, cur, v, o[v].0, s, j, x),
        y == old[x]@.update(v, (o[v].0, Output::Interval(s[j]))),
    ensures
        forall|i: int| 0 <= i < before.len() ==> (#[trigger] before[i])@ != y,
{
    assert(s[0].proper());
    assert(s[j].proper());
    assert forall|i: int| 0 <= i < before.len() implies (#[trigger] before[i])@ != y by {
        assert(old[x]@.len() == o.len());
        assert(picks(old[x]@[v].1, o[v].1, false));
        if i < cur {
            assert(before[i] == old[i]);
            assert(picks(old[i]@[v].1, o[v].1, false));
            if before[i]@ == y {
                assert(before[i]@[v] == y[v]);
                assert(crate::interval::before(s[0], s[j]));
            }
        } else {
            assert(made_from(before[i]@, old, cur, v, o[v].0, s, j, x));
            let (src, lvl) = choose|src: int, lvl: int|
                0 <= src < cur && 1 <= lvl < s.len() && (lvl < j || (lvl == j && src < x)) && before[i]@ == old[src]@.update(
                    v,
                    (o[v].0, Output::Interval(s[lvl])),
                );
            assert(choice_upto(old[src]@, o, v));
            assert(old[src]@.len() == o.len());
            if before[i]@ == y {
                assert(before[i]@[v] == y[v]);
                if lvl < j {
                    assert(s[lvl].proper());
                    assert(crate::interval::before(s[lvl], s[j]));
                } else {
                    assert(src != x);
                    assert(before[src] == old[src] && before[x] == old[x]);
                    assert(picks(old[src]@[v].1, o[v].1, false));
                    assert forall|k: int| 0 <= k < o.len() implies old[src]@[k] == old[x]@[k] by {
                        if k != v {
                            assert(before[i]@[k] == y[k]);
                        }
                    }
                    assert(old[src]@ =~= old[x]@);
                }
            }
        }
    }
}

/// Every combination of one interval per variable: a variable whose value is
/// a union of several intervals multiplies the cases. A variable with no
/// interval at all leaves no case.
#[verifier::loop_isolation(false)]
#[verifier::rlimit(60)]
pub fn ntuple_multi_cartesian_product(ntuple: &NTupleOutput) -> (r: Vec<NTupleSingleInterval>)
    ensures
        forall|i: int| 0 <= i < r@.len() ==> choice((#[trigger] r@[i])@, ntuple@),
        forall|t: Seq<(Seq<char>, Output<Interval>)>| #[trigger] choice(t, ntuple@) ==> holds_case(r@, t),
        forall|i: int| 0 <= i < r@.len() ==> intervals_proper((#[trigger] r@[i])@),
        forall|i: int, j: int| 0 <= i < j < r@.len() ==> (#[trigger] r@[i])@ != (#[trigger] r@[j])@,
{
    let ghost o = ntuple@;
    let n = ntuple.outputs.len();
    for k in 0..n
        invariant
            n == o.len(),
            o == ntuple@,
            forall|j: int| 0 <= j < k ==> match #[trigger] o[j].1 {
                Output::Interval(s) => s.len() > 0 && normalized(s),
                _ => true,
            },
    {
        match &ntuple.outputs[k].1 {
            Output::Interval(m) => {
                let _ = m.intervals();
                if m.is_empty() {
                    proof {
                        assert forall|t: Seq<(Seq<char>, Output<Interval>)>| #[trigger] choice(t, o) implies holds_case(Seq::empty(), t) by {
                            assert(picks(t[k as int].1, o[k as int].1, true));
                        }
                    }
                    return Vec::new();
                }
            },
            _ => {},
        }
    }
    let mut first: Vec<(String, Output<Interval>)> = Vec::new();
    for k in 0..n
        invariant
            n == o.len(),
            o == ntuple@,
            forall|j: int| 0 <= j < n ==> match #[trigger] o[j].1 {
                Output::Interval(s) => s.len() > 0 && normalized(s),
                _ => true,
            },
            first@.len() == k,
            choice_upto(entries_view(first@), o.take(k as int), 0),
    {
        let out = match &ntuple.outputs[k].1 {
            Output::MissingVariable => Output::MissingVariable,
            Output::Bool(x) => Output::Bool(*x),
            Output::Interval(x) => {
                let ivs = x.intervals();
                assert(o[k as int].1 == Output::Interval(x@));
                Output::Interval(ivs[0])
            },
        };
        let ghost before = entries_view(first@);
        first.push((ntuple.outputs[k].0.clone(), out));
        proof {
            let t = entries_view(first@);
            assert forall|j: int| 0 <= j < k + 1 implies (#[trigger] t[j]).0 == o.take(k + 1)[j].0
                && picks(t[j].1, o.take(k + 1)[j].1, j < 0) by {
                if j < k {
                    assert(t[j] == before[j]);
                    assert(o.take(k as int)[j] == o.take(k + 1)[j]);
                }
            }
        }
    }
    assert(o.take(n as int) =~= o);
    let first = NTupleSingleInterval { outputs: first };
    let mut res: Vec<NTupleSingleInterval> = vec![first];
    proof {
        assert forall|t: Seq<(Seq<char>, Output<Interval>)>| #[trigger] choice_upto(t, o, 0) implies holds_case(res@, t) by {
            assert forall|k: int| 0 <= k < o.len() implies t[k] == (#[trigger] first@[k]) by {
                assert(picks(t[k].1, o[k].1, false));
                assert(picks(first@[k].1, o[k].1, false));
            }
            assert(t =~= first@);
            assert(res@[0]@ == t);
        }
    }
    let mut v: usize = 0;
    while v < n
        invariant
            v <= n,
            n == o.len(),
            o == ntuple@,
            forall|i: int| 0 <= i < res@.len() ==> choice_upto((#[trigger] res@[i])@, o, v as int),
            forall|t: Seq<(Seq<char>, Output<Interval>)>| #[trigger] choice_upto(t, o, v as int) ==> holds_case(res@, t),
            forall|i: int, j: int| 0 <= i < j < res@.len() ==> (#[trigger] res@[i])@ != (#[trigger] res@[j])@,
            forall|j: int| 0 <= j < n ==> match #[trigger] o[j].1 {
                Output::Interval(s) => s.len() > 0 && normalized(s),
                _ => true,
            },
        decreases n - v,
    {
        let cur = res.len();
        let ghost old_res = res@;
        proof {
            assert forall|t: Seq<(Seq<char>, Output<Interval>)>| #[trigger] choice_upto(t, o, v as int) implies holds_case(old_res, t) by {}
            assert forall|i: int| 0 <= i < cur implies choice_upto((#[trigger] res@[i])@, o, v + 1) by {
                let t = res@[i]@;
                assert forall|k: int| 0 <= k < o.len() implies (#[trigger] t[k]).0 == o[k].0 && picks(t[k].1, o[k].1, k < v + 1) by {
                    assert(picks(t[k].1, o[k].1, k < v));
                    if k == v {
                        match o[k].1 {
                            Output::Interval(s) => {
                                assert(s.contains(s[0]));
                            },
                            _ => {},
                        }
                    }
                }
            }
        }
        match &ntuple.outputs[v].1 {
            Output::Interval(m) => {
                let ivs = m.intervals();
                let ghost s = ivs@;
                assert(o[v as int].1 == Output::Interval(s));
                let key = &ntuple.outputs[v].0;
                let cnt = ivs.len();
                let mut j: usize = 1;
                while j < cnt
                    invariant
                        1 <= j <= cnt,
                        cnt == s.len(),
                        res@.len() >= cur,
                        forall|i: int| 0 <= i < cur ==> #[trigger] res@[i] == old_res[i],
                        forall|i: int| 0 <= i < res@.len() ==> choice_upto((#[trigger] res@[i])@, o, v + 1),
                        forall|jj: int, i: int| 1 <= jj < j && 0 <= i < cur ==> #[trigger] holds_case(res@, old_res[i]@.update(v as int, (o[v as int].0, Output::Interval(#[trigger] s[jj])))),
                        forall|i: int, i2: int| 0 <= i < i2 < res@.len() ==> (#[trigger] res@[i])@ != (#[trigger] res@[i2])@,
                        forall|i: int| cur <= i < res@.len() ==> #[trigger] made_from(res@[i]@, old_res, cur as int, v as int, o[v as int].0, s, j as int, 0),
                    decreases cnt - j,
                {
                    let mut x: usize = 0;
                    while x < cur
                        invariant
                            x <= cur,
                            1 <= j < cnt,
                            res@.len() >= cur,
                            forall|i: int| 0 <= i < cur ==> #[trigger] res@[i] == old_res[i],
                            forall|i: int| 0 <= i < res@.len() ==> choice_upto((#[trigger] res@[i])@, o, v + 1),
                            forall|jj: int, i: int| 1 <= jj < j && 0 <= i < cur ==> #[trigger] holds_case(res@, old_res[i]@.update(v as int, (o[v as int].0, Output::Interval(#[trigger] s[jj])))),
                            forall|i: int| 0 <= i < x ==> #[trigger] holds_case(res@, old_res[i]@.update(v as int, (o[v as int].0, Output::Interval(s[j as int])))),
                            forall|i: int, i2: int| 0 <= i < i2 < res@.len() ==> (#[trigger] res@[i])@ != (#[trigger] res@[i2])@,
                            forall|i: int| cur <= i < res@.len() ==> #[trigger] made_from(res@[i]@, old_res, cur as int, v as int, o[v as int].0, s, j as int, x as int),
                        decreases cur - x,
                    {
                        let mut y = res[x].duplicate();
                        let ghost yv = y@;
                        y.outputs.set(v, (key.clone(), Output::Interval(ivs[j])));
                        let ghost before = res@;
                        proof {
                            assert(y@ =~= yv.update(v as int, (o[v as int].0, Output::Interval(s[j as int]))));
                            assert(s.contains(s[j as int]));
                            let t = y@;
                            assert forall|k: int| 0 <= k < o.len() implies (#[trigger] t[k]).0 == o[k].0 && picks(t[k].1, o[k].1, k < v + 1) by {
                                assert(picks(yv[k].1, o[k].1, k < v + 1));
                            }
                        }
                        proof {
                            lemma_new_case_differs(before, old_res, cur as int, v as int, o, s, j as int, x as int, y@);
                        }
                        res.push(y);
                        proof {
                            assert(res@[before.len() as int] == y);
                            assert forall|i: int, i2: int| 0 <= i < i2 < res@.len() implies (#[trigger] res@[i])@ != (#[trigger] res@[i2])@ by {
                                if i2 < before.len() {
                                    assert(res@[i] == before[i] && res@[i2] == before[i2]);
                                } else {
                                    assert(res@[i] == before[i]);
                                }
                            }
                            assert forall|i: int| cur <= i < res@.len() implies #[trigger] made_from(res@[i]@, old_res, cur as int, v as int, o[v as int].0, s, j as int, x + 1) by {
                                if i < before.len() {
                                    assert(res@[i] == before[i]);
                                    assert(made_from(before[i]@, old_res, cur as int, v as int, o[v as int].0, s, j as int, x as int));
                                } else {
                                    assert(made_from(y@, old_res, cur as int, v as int, o[v as int].0, s, j as int, x + 1));
                                }
                            }
                            assert forall|i: int| 0 <= i < res@.len() implies choice_upto((#[trigger] res@[i])@, o, v + 1) by {
                                if i < before.len() {
                                    assert(res@[i] == before[i]);
                                }
                            }
                            assert forall|jj: int, i: int| 1 <= jj < j && 0 <= i < cur implies #[trigger] holds_case(res@, old_res[i]@.update(v as int, (o[v as int].0, Output::Interval(#[trigger] s[jj])))) by {
                                assert(holds_case(before, old_res[i]@.update(v as int, (o[v as int].0, Output::Interval(s[jj])))));
                                let w = choose|w: int| 0 <= w < before.len() && (#[trigger] before[w])@ == old_res[i]@.update(v as int, (o[v as int].0, Output::Interval(s[jj])));
                                assert(res@[w] == before[w]);
                            }
                            assert forall|i: int| 0 <= i < x + 1 implies #[trigger] holds_case(res@, old_res[i]@.update(v as int, (o[v as int].0, Output::Interval(s[j as int])))) by {
                                if i < x {
                                    assert(holds_case(before, old_res[i]@.update(v as int, (o[v as int].0, Output::Interval(s[j as int])))));
                                    let w = choose|w: int| 0 <= w < before.len() && (#[trigger] before[w])@ == old_res[i]@.update(v as int, (o[v as int].0, Output::Interval(s[j as int])));
                                    assert(res@[w] == before[w]);
                                } else {
                                    assert(res@[before.len() as int]@ == old_res[i]@.update(v as int, (o[v as int].0, Output::Interval(s[j as int]))));
                                }
                            }
                        }
                        x = x + 1;
                    }
                    proof {
                        assert forall|i: int| cur <= i < res@.len() implies #[trigger] made_from(res@[i]@, old_res, cur as int, v as int, o[v as int].0, s, j + 1, 0) by {
                            assert(made_from(res@[i]@, old_res, cur as int, v as int, o[v as int].0, s, j as int, cur as int));
                            let (src, lvl) = choose|src: int, lvl: int|
                                0 <= src < cur && 1 <= lvl < s.len() && (lvl < j || (lvl == j && src < cur)) && res@[i]@ == old_res[src]@.update(
                                    v as int,
                                    (o[v as int].0, Output::Interval(s[lvl])),
                                );
                        }
                    }
                    j = j + 1;
                }
                proof {
                    assert forall|t: Seq<(Seq<char>, Output<Interval>)>| #[trigger] choice_upto(t, o, v + 1) implies holds_case(res@, t) by {
                        assert(picks(t[v as int].1, o[v as int].1, true));
                        let iv = t[v as int].1->Interval_0;
                        let c = choose|c: int| 0 <= c < s.len() && s[c] == iv;
                        let t0 = t.update(v as int, (o[v as int].0, Output::Interval(s[0])));
                        assert forall|k: int| 0 <= k < o.len() implies (#[trigger] t0[k]).0 == o[k].0 && picks(t0[k].1, o[k].1, k < v) by {
                            if k != v {
                                assert(picks(t[k].1, o[k].1, k < v + 1));
                            }
                        }
                        assert(choice_upto(t0, o, v as int));
                        assert(holds_case(old_res, t0));
                        let i = choose|i: int| 0 <= i < old_res.len() && (#[trigger] old_res[i])@ == t0;
                        if c == 0 {
                            assert(t =~= t0);
                            assert(res@[i] == old_res[i]);
                        } else {
                            assert(t =~= old_res[i]@.update(v as int, (o[v as int].0, Output::Interval(s[c]))));
                            assert(holds_case(res@, old_res[i]@.update(v as int, (o[v as int].0, Output::Interval(s[c])))));
                        }
                    }
                }
            },
            _ => {
                proof {
                    assert forall|t: Seq<(Seq<char>, Output<Interval>)>| #[trigger] choice_upto(t, o, v + 1) implies holds_case(res@, t) by {
                        assert forall|k: int| 0 <= k < o.len() implies (#[trigger] t[k]).0 == o[k].0 && picks(t[k].1, o[k].1, k < v) by {
                            assert(picks(t[k].1, o[k].1, k < v + 1));
                        }
                        assert(choice_upto(t, o, v as int));
                    }
                }
            },
        }
        v = v + 1;
    }
    proof {
        assert forall|t: Seq<(Seq<char>, Output<Interval>)>| #[trigger] choice(t, ntuple@) implies holds_case(res@, t) by {
            assert(choice_upto(t, o, n as int));
        }
        assert forall|i: int| 0 <= i < res@.len() implies intervals_proper((#[trigger] res@[i])@) by {
            let t = res@[i]@;
            assert(choice(t, o));
            assert forall|k: int| 0 <= k < t.len() implies match (#[trigger] t[k]).1 {
                Output::Interval(iv) => iv.proper(),
                _ => true,
            } by {
                assert(picks(t[k].1, o[k].1, k < o.len()));
                match o[k].1 {
                    Output::Interval(s) => {
                        assert(normalized(s));
                        let iv = t[k].1->Interval_0;
                        let w = choose|w: int| 0 <= w < s.len() && s[w] == iv;
                        assert(s[w].proper());
                    },
                    _ => {},
                }
            }
        }
    }
    res
}


/// `c` is one of the vectors derived from `inputs`: a baseline, or a
/// variant rejecting one variable.
pub open spec fn candidate(c: NTupleOutput, inputs: Seq<(String, Input)>) -> bool {
    ||| tuple_ok(c, inputs, |k: int| Derivation::In)
    ||| tuple_ok(c, inputs, |k: int| Derivation::On)
    ||| tuple_ok(c, inputs, |k: int| Derivation::Inin)
    ||| exists|j: int|
        0 <= j < rejections(inputs).len() && tuple_ok(c, inputs, variant(#[trigger] rejections(inputs)[j]))
}

/// `t` is a test case expanded from some vector derived from `inputs`.
pub open spec fn case_of(t: Seq<(Seq<char>, Output<Interval>)>, inputs: Seq<(String, Input)>) -> bool {
    exists|c: NTupleOutput| #[trigger] candidate(c, inputs) && choice(t, c@)
}

/// Some vector derived from `inputs` by `d` has every one of its expansions
/// in `r`.
pub open spec fn covered(r: Seq<NTupleSingleInterval>, inputs: Seq<(String, Input)>, d: spec_fn(int) -> Derivation) -> bool {
    exists|c: NTupleOutput|
        #[trigger] tuple_ok(c, inputs, d) && forall|t: Seq<(Seq<char>, Output<Interval>)>| #[trigger] choice(t, c@) ==> holds_case(r, t)
}

/// Every derivation from `inputs` is covered in `r`.
pub open spec fn all_covered(r: Seq<NTupleSingleInterval>, inputs: Seq<(String, Input)>) -> bool {
    &&& covered(r, inputs, |k: int| Derivation::In)
    &&& covered(r, inputs, |k: int| Derivation::On)
    &&& covered(r, inputs, |k: int| Derivation::Inin)
    &&& forall|j: int| 0 <= j < rejections(inputs).len() ==> covered(r, inputs, variant(#[trigger] rejections(inputs)[j]))
}

proof fn lemma_covered_grows(r: Seq<NTupleSingleInterval>, more: Seq<NTupleSingleInterval>, inputs: Seq<(String, Input)>, d: spec_fn(int) -> Derivation)
    requires
        covered(r, inputs, d),
    ensures
        covered(r + more, inputs, d),
{
    let c = choose|c: NTupleOutput| #[trigger] tuple_ok(c, inputs, d) && forall|t: Seq<(Seq<char>, Output<Interval>)>| #[trigger] choice(t, c@) ==> holds_case(r, t);
    assert forall|t: Seq<(Seq<char>, Output<Interval>)>| #[trigger] choice(t, c@) implies holds_case(r + more, t) by {
        let i = choose|i: int| 0 <= i < r.len() && (#[trigger] r[i])@ == t;
        assert((r + more)[i] == r[i]);
    }
}

proof fn lemma_all_covered_grows(r: Seq<NTupleSingleInterval>, more: Seq<NTupleSingleInterval>, inputs: Seq<(String, Input)>)
    requires
        all_covered(r, inputs),
    ensures
        all_covered(r + more, inputs),
{
    lemma_covered_grows(r, more, inputs, |k: int| Derivation::In);
    lemma_covered_grows(r, more, inputs, |k: int| Derivation::On);
    lemma_covered_grows(r, more, inputs, |k: int| Derivation::Inin);
    assert forall|j: int| 0 <= j < rejections(inputs).len() implies covered(r + more, inputs, variant(#[trigger] rejections(inputs)[j])) by {
        lemma_covered_grows(r, more, inputs, variant(rejections(inputs)[j]));
    }
}

/// The test cases of one conjunction: the baselines and rejecting variants,
/// duplicates dropped, each expanded to single intervals.
#[verifier::loop_isolation(false)]
pub fn generate_test_cases_for_inputs(inputs: &NTupleInput) -> (r: Vec<NTupleSingleInterval>)
    requires
        inputs_ready(inputs.inputs@),
    ensures
        forall|x: int| 0 <= x < r@.len() ==> case_of((#[trigger] r@[x])@, inputs.inputs@),
        forall|x: int| 0 <= x < r@.len() ==> intervals_proper((#[trigger] r@[x])@),
        all_covered(r@, inputs.inputs@),
{
    let ghost s = inputs.inputs@;
    let mut modified_inputs = calc_in_on_inin(inputs);
    let mut rest = off_out(inputs);
    let ghost base3 = modified_inputs@;
    let ghost rej = rest@;
    modified_inputs.append(&mut rest);
    let ghost all = modified_inputs@;
    assert forall|j: int| 0 <= j < all.len() implies candidate(#[trigger] all[j], s) by {
        if j >= 3 {
            assert(all[j] == rej[j - 3]);
            assert(tuple_ok(rej[j - 3], s, variant(rejections(s)[j - 3])));
        } else {
            assert(all[j] == base3[j]);
        }
    }
    let uniq = modified_inputs.uniques();
    let mut res: Vec<NTupleSingleInterval> = Vec::new();
    let n = uniq.len();
    for i in 0..n
        invariant
            n == uniq@.len(),
            forall|x: int| 0 <= x < res@.len() ==> case_of((#[trigger] res@[x])@, s),
            forall|x: int| 0 <= x < res@.len() ==> intervals_proper((#[trigger] res@[x])@),
            forall|q: int, t: Seq<(Seq<char>, Output<Interval>)>| 0 <= q < i && #[trigger] choice(t, (#[trigger] uniq@[q])@) ==> holds_case(res@, t),
    {
        let mut cases = ntuple_multi_cartesian_product(&uniq[i]);
        let ghost old_res = res@;
        let ghost more = cases@;
        proof {
            let w = choose|w: int| 0 <= w < all.len() && (#[trigger] all[w])@ == uniq@[i as int]@;
            assert(candidate(all[w], s));
            assert forall|x: int| 0 <= x < more.len() implies case_of((#[trigger] more[x])@, s) by {
                assert(choice(more[x]@, uniq@[i as int]@));
                assert(choice(more[x]@, all[w]@));
            }
        }
        res.append(&mut cases);
        proof {
            assert(res@ == old_res + more);
            assert forall|x: int| 0 <= x < res@.len() implies case_of((#[trigger] res@[x])@, s) && intervals_proper(res@[x]@) by {
                if x < old_res.len() {
                    assert(res@[x] == old_res[x]);
                } else {
                    assert(res@[x] == more[x - old_res.len()]);
                }
            }
            assert forall|q: int, t: Seq<(Seq<char>, Output<Interval>)>| 0 <= q < i + 1 && #[trigger] choice(t, (#[trigger] uniq@[q])@) implies holds_case(res@, t) by {
                if q < i {
                    let x = choose|x: int| 0 <= x < old_res.len() && (#[trigger] old_res[x])@ == t;
                    assert(res@[x] == old_res[x]);
                } else {
                    let x = choose|x: int| 0 <= x < more.len() && (#[trigger] more[x])@ == t;
                    assert(res@[old_res.len() + x] == more[x]);
                }
            }
        }
    }
    proof {
        assert forall|j: int| 0 <= j < all.len() implies forall|t: Seq<(Seq<char>, Output<Interval>)>| #[trigger] choice(t, (#[trigger] all[j])@) ==> holds_case(res@, t) by {
            assert(crate::util::holds_view(uniq@, all[j]@));
            let q = choose|q: int| 0 <= q < uniq@.len() && (#[trigger] uniq@[q])@ == all[j]@;
            assert forall|t: Seq<(Seq<char>, Output<Interval>)>| #[trigger] choice(t, all[j]@) implies holds_case(res@, t) by {
                assert(choice(t, uniq@[q]@));
            }
        }
        assert(all[0] == base3[0]);
        assert(all[1] == base3[1]);
        assert(all[2] == base3[2]);
        assert(tuple_ok(all[0], s, |k: int| Derivation::In));
        assert(tuple_ok(all[1], s, |k: int| Derivation::On));
        assert(tuple_ok(all[2], s, |k: int| Derivation::Inin));
        assert forall|j: int| 0 <= j < rejections(s).len() implies covered(res@, s, variant(#[trigger] rejections(s)[j])) by {
            assert(all[j + 3] == rej[j]);
            assert(tuple_ok(all[j + 3], s, variant(rejections(s)[j])));
        }
    }
    res
}


/// Whether every numeric condition of `inputs` can be derived from.
fn check_ready(inputs: &NTupleInput) -> (r: bool)
    ensures
        r == inputs_ready(inputs.inputs@),
{
    let n = inputs.inputs.len();
    for k in 0..n
        invariant
            n == inputs.inputs@.len(),
            forall|j: int| 0 <= j < k ==> match #[trigger] inputs.inputs@[j].1 {
                Input::Interval(c) => all_ready(c.interval@, c.precision),
                _ => true,
            },
    {
        match &inputs.inputs[k].1 {
            Input::Interval(c) => {
                if !ready(&c.interval, c.precision) {
                    return false;
                }
            },
            _ => {},
        }
    }
    true
}

/// `t` is a test case of one of the conjunctions.
pub open spec fn case_in(t: Seq<(Seq<char>, Output<Interval>)>, n_tuples: Seq<NTupleInput>) -> bool {
    exists|i: int| 0 <= i < n_tuples.len() && case_of(t, (#[trigger] n_tuples[i]).inputs@)
}

/// `t` is a test case of one of the conjunctions of one of the features.
pub open spec fn case_in_features(t: Seq<(Seq<char>, Output<Interval>)>, features: Seq<Vec<NTupleInput>>) -> bool {
    exists|f: int| 0 <= f < features.len() && case_in(t, (#[trigger] features[f])@)
}

/// Every conjunction of the feature is ready for derivation.
pub open spec fn feature_ready(n_tuples: Seq<NTupleInput>) -> bool {
    forall|i: int| 0 <= i < n_tuples.len() ==> inputs_ready(#[trigger] n_tuples[i].inputs@)
}

/// The sequences of `parts` one after another.
pub open spec fn concat(parts: Seq<Seq<NTupleSingleInterval>>) -> Seq<NTupleSingleInterval>
    decreases parts.len(),
{
    if parts.len() == 0 {
        seq![]
    } else {
        concat(parts.drop_last()) + parts.last()
    }
}

/// `r` is what `generate_test_cases_for_inputs` states of its result on
/// `inputs`.
pub open spec fn cases_for(r: Seq<NTupleSingleInterval>, inputs: Seq<(String, Input)>) -> bool {
    &&& forall|x: int| 0 <= x < r.len() ==> case_of((#[trigger] r[x])@, inputs)
    &&& forall|x: int| 0 <= x < r.len() ==> intervals_proper((#[trigger] r[x])@)
    &&& all_covered(r, inputs)
}

/// `r` is, in order, one block of cases per conjunction of the feature.
pub open spec fn feature_cases(r: Seq<NTupleSingleInterval>, n_tuples: Seq<NTupleInput>) -> bool {
    exists|parts: Seq<Seq<NTupleSingleInterval>>|
        #[trigger] concat(parts) == r && parts.len() == n_tuples.len() && forall|i: int|
            0 <= i < parts.len() ==> cases_for(#[trigger] parts[i], n_tuples[i].inputs@)
}

/// `r` is, in order, one block of cases per feature, each made as
/// `feature_cases` states.
pub open spec fn all_features_cases(r: Seq<NTupleSingleInterval>, features: Seq<Vec<NTupleInput>>) -> bool {
    exists|fparts: Seq<Seq<NTupleSingleInterval>>|
        #[trigger] concat(fparts) == r && fparts.len() == features.len() && forall|f: int|
            0 <= f < fparts.len() ==> feature_cases(#[trigger] fparts[f], features[f]@)
}

/// The test cases of every conjunction of one feature, in order.
#[verifier::loop_isolation(false)]
pub fn generate_test_cases_for_feature(n_tuples: &Vec<NTupleInput>) -> (r: Vec<NTupleSingleInterval>)
    requires
        feature_ready(n_tuples@),
    ensures
        forall|x: int| 0 <= x < r@.len() ==> case_in((#[trigger] r@[x])@, n_tuples@),
        forall|x: int| 0 <= x < r@.len() ==> intervals_proper((#[trigger] r@[x])@),
        forall|i: int| 0 <= i < n_tuples@.len() ==> all_covered(r@, (#[trigger] n_tuples@[i]).inputs@),
        feature_cases(r@, n_tuples@),
{
    let mut result_test_cases: Vec<NTupleSingleInterval> = Vec::new();
    let ghost mut parts: Seq<Seq<NTupleSingleInterval>> = seq![];
    let n = n_tuples.len();
    for k in 0..n
        invariant
            n == n_tuples@.len(),
            forall|x: int| 0 <= x < result_test_cases@.len() ==> case_in((#[trigger] result_test_cases@[x])@, n_tuples@),
            forall|x: int| 0 <= x < result_test_cases@.len() ==> intervals_proper((#[trigger] result_test_cases@[x])@),
            forall|i: int| 0 <= i < k ==> all_covered(result_test_cases@, (#[trigger] n_tuples@[i]).inputs@),
            concat(parts) == result_test_cases@,
            parts.len() == k,
            forall|i: int| 0 <= i < parts.len() ==> cases_for(#[trigger] parts[i], n_tuples@[i].inputs@),
    {
        assert(inputs_ready(n_tuples@[k as int].inputs@));
        let mut test_cases = generate_test_cases_for_inputs(&n_tuples[k]);
        let ghost old_r = result_test_cases@;
        let ghost more = test_cases@;
        result_test_cases.append(&mut test_cases);
        proof {
            assert(result_test_cases@ == old_r + more);
            assert forall|x: int| 0 <= x < result_test_cases@.len() implies case_in((#[trigger] result_test_cases@[x])@, n_tuples@) && intervals_proper(result_test_cases@[x]@) by {
                if x < old_r.len() {
                    assert(result_test_cases@[x] == old_r[x]);
                } else {
                    assert(result_test_cases@[x] == more[x - old_r.len()]);
                    assert(case_in(more[x - old_r.len()]@, n_tuples@));
                }
            }
            assert forall|i: int| 0 <= i < k + 1 implies all_covered(result_test_cases@, (#[trigger] n_tuples@[i]).inputs@) by {
                if i < k {
                    lemma_all_covered_grows(old_r, more, n_tuples@[i].inputs@);
                } else {
                    assert(all_covered(more, n_tuples@[i].inputs@));
                    lemma_all_covered_grows_front(old_r, more, n_tuples@[i].inputs@);
                }
            }
            let old_parts = parts;
            parts = parts.push(more);
            assert(parts.drop_last() =~= old_parts);
            assert forall|i: int| 0 <= i < parts.len() implies cases_for(#[trigger] parts[i], n_tuples@[i].inputs@) by {
                if i < k {
                    assert(parts[i] == old_parts[i]);
                }
            }
        }
    }
    proof {
        assert(concat(parts) == result_test_cases@);
    }
    result_test_cases
}

proof fn lemma_covered_grows_front(r: Seq<NTupleSingleInterval>, more: Seq<NTupleSingleInterval>, inputs: Seq<(String, Input)>, d: spec_fn(int) -> Derivation)
    requires
        covered(more, inputs, d),
    ensures
        covered(r + more, inputs, d),
{
    let c = choose|c: NTupleOutput| #[trigger] tuple_ok(c, inputs, d) && forall|t: Seq<(Seq<char>, Output<Interval>)>| #[trigger] choice(t, c@) ==> holds_case(more, t);
    assert forall|t: Seq<(Seq<char>, Output<Interval>)>| #[trigger] choice(t, c@) implies holds_case(r + more, t) by {
        let i = choose|i: int| 0 <= i < more.len() && (#[trigger] more[i])@ == t;
        assert((r + more)[r.len() + i] == more[i]);
    }
}

proof fn lemma_all_covered_grows_front(r: Seq<NTupleSingleInterval>, more: Seq<NTupleSingleInterval>, inputs: Seq<(String, Input)>)
    requires
        all_covered(more, inputs),
    ensures
        all_covered(r + more, inputs),
{
    lemma_covered_grows_front(r, more, inputs, |k: int| Derivation::In);
    lemma_covered_grows_front(r, more, inputs, |k: int| Derivation::On);
    lemma_covered_grows_front(r, more, inputs, |k: int| Derivation::Inin);
    assert forall|j: int| 0 <= j < rejections(inputs).len() implies covered(r + more, inputs, variant(#[trigger] rejections(inputs)[j])) by {
        lemma_covered_grows_front(r, more, inputs, variant(rejections(inputs)[j]));
    }
}

/// Every feature's conjunctions are ready for derivation.
pub open spec fn features_ready(features: Seq<Vec<NTupleInput>>) -> bool {
    forall|f: int| 0 <= f < features.len() ==> feature_ready(#[trigger] features[f]@)
}

/// The test cases of every feature, in order. Fails where a value or a
/// precision is beyond the range the derivations can step over.
#[verifier::loop_isolation(false)]
pub fn generate_test_cases_for_multiple_features(features: &Vec<Vec<NTupleInput>>) -> (r: Result<
    Vec<NTupleSingleInterval>,
    IntervalError,
>)
    ensures
        r is Err <==> !features_ready(features@),
        r matches Ok(cases) ==> forall|x: int|
            0 <= x < cases@.len() ==> case_in_features((#[trigger] cases@[x])@, features@),
        r matches Ok(cases) ==> forall|x: int| 0 <= x < cases@.len() ==> intervals_proper((#[trigger] cases@[x])@),
        r matches Ok(cases) ==> forall|f: int, i: int|
            0 <= f < features@.len() && 0 <= i < features@[f]@.len() ==> all_covered(
                cases@,
                (#[trigger] features@[f]@[i]).inputs@,
            ),
        r matches Ok(cases) ==> all_features_cases(cases@, features@),
{
    let nf = features.len();
    for f in 0..nf
        invariant
            nf == features@.len(),
            forall|g: int| 0 <= g < f ==> feature_ready(#[trigger] features@[g]@),
    {
        let n = features[f].len();
        for i in 0..n
            invariant
                n == features@[f as int]@.len(),
                forall|j: int| 0 <= j < i ==> inputs_ready(#[trigger] features@[f as int]@[j].inputs@),
        {
            if !check_ready(&features[f][i]) {
                return Err(IntervalError::OutOfRange);
            }
        }
    }
    let mut res: Vec<NTupleSingleInterval> = Vec::new();
    let ghost mut fparts: Seq<Seq<NTupleSingleInterval>> = seq![];
    for f in 0..nf
        invariant
            nf == features@.len(),
            features_ready(features@),
            concat(fparts) == res@,
            fparts.len() == f,
            forall|g: int| 0 <= g < fparts.len() ==> feature_cases(#[trigger] fparts[g], features@[g]@),
            forall|x: int|
                0 <= x < res@.len() ==> case_in_features((#[trigger] res@[x])@, features@),
            forall|x: int| 0 <= x < res@.len() ==> intervals_proper((#[trigger] res@[x])@),
            forall|g: int, i: int|
                0 <= g < f && 0 <= i < features@[g]@.len() ==> all_covered(
                    res@,
                    (#[trigger] features@[g]@[i]).inputs@,
                ),
    {
        assert(feature_ready(features@[f as int]@));
        let mut test_cases = generate_test_cases_for_feature(&features[f]);
        let ghost old_r = res@;
        let ghost more = test_cases@;
        res.append(&mut test_cases);
        proof {
            assert(res@ == old_r + more);
            assert forall|x: int| 0 <= x < res@.len() implies case_in_features((#[trigger] res@[x])@, features@) && intervals_proper(res@[x]@) by {
                if x < old_r.len() {
                    assert(res@[x] == old_r[x]);
                } else {
                    assert(res@[x] == more[x - old_r.len()]);
                    assert(case_in(more[x - old_r.len()]@, features@[f as int]@));
                }
            }
            assert forall|g: int, i: int|
                0 <= g < f + 1 && 0 <= i < features@[g]@.len() implies all_covered(
                    res@,
                    (#[trigger] features@[g]@[i]).inputs@,
                ) by {
                if g < f {
                    lemma_all_covered_grows(old_r, more, features@[g]@[i].inputs@);
                } else {
                    assert(all_covered(more, features@[g]@[i].inputs@));
                    lemma_all_covered_grows_front(old_r, more, features@[g]@[i].inputs@);
                }
            }
            let old_fparts = fparts;
            fparts = fparts.push(more);
            assert(fparts.drop_last() =~= old_fparts);
            assert forall|g: int| 0 <= g < fparts.len() implies feature_cases(#[trigger] fparts[g], features@[g]@) by {
                if g < f {
                    assert(fparts[g] == old_fparts[g]);
                }
            }
        }
    }
    proof {
        assert(concat(fparts) == res@);
    }
    Ok(res)
}


pub open spec fn names_unique(s: Seq<(String, Input)>) -> bool {
    forall|i: int, j: int| 0 <= i < j < s.len() ==> (#[trigger] s[i]).0@ != (#[trigger] s[j]).0@
}

/// A test case of a conjunction has the conjunction's variable names, so
/// they are unique when the conjunction's are.
pub proof fn lemma_case_names(t: Seq<(Seq<char>, Output<Interval>)>, inputs: Seq<(String, Input)>)
    requires
        case_of(t, inputs),
        names_unique(inputs),
    ensures
        keys_unique(t),
{
    let c = choose|c: NTupleOutput| #[trigger] candidate(c, inputs) && choice(t, c@);
    assert(c.outputs@.len() == inputs.len());
    assert forall|i: int, j: int| 0 <= i < j < t.len() implies (#[trigger] t[i]).0 != (#[trigger] t[j]).0 by {
        assert(t[i].0 == c@[i].0);
        assert(t[j].0 == c@[j].0);
        assert(c.outputs@[i].0@ == inputs[i].0@);
        assert(c.outputs@[j].0@ == inputs[j].0@);
    }
}

} // verus!
