use gpt_common::dto::{
    BoolDTO, BoolExpression, Expression, Input, IntervalDTO, NTupleInput, NTupleOutput,
    NTupleSingleInterval, Output,
};
use gpt_common::interval::{Boundary, Interval, IntervalError, MultiInterval, INFINITY, NEG_INFINITY};
use gpt_common::test_case_generator::{
    generate_test_cases_for_inputs, generate_test_cases_for_multiple_features,
    ntuple_multi_cartesian_product,
};

use Boundary::{Closed, Open};

/// Values are fixed-point with a hundred units to one.
fn fx(v: f32) -> i64 {
    (v * 100.0).round() as i64
}

fn points(ps: &[i64]) -> MultiInterval {
    MultiInterval::from_intervals(ps.iter().map(|p| Interval::new_closed_point(*p)).collect())
}

fn single(outputs: Vec<(&str, Output<Interval>)>) -> NTupleSingleInterval {
    NTupleSingleInterval {
        outputs: outputs.into_iter().map(|(k, v)| (k.to_owned(), v)).collect(),
    }
}

fn sorted(t: &NTupleSingleInterval) -> Vec<(String, Output<Interval>)> {
    let mut v = t.outputs.clone();
    v.sort_by(|a, b| a.0.cmp(&b.0));
    v
}

fn same_cases(result: &[NTupleSingleInterval], expected: &[NTupleSingleInterval]) {
    let result: Vec<_> = result.iter().map(sorted).collect();
    let expected: Vec<_> = expected.iter().map(sorted).collect();
    assert_eq!(result.len(), expected.len());
    assert!(result.iter().all(|x| expected.contains(x)));
    assert!(expected.iter().all(|x| result.contains(x)));
}

fn point(v: i64) -> Output<Interval> {
    Output::Interval(Interval::new_closed_point(v))
}

#[test]
fn test_all_possible_combinations() {
    let input = NTupleOutput {
        outputs: vec![
            ("a".to_owned(), Output::Interval(points(&[1]))),
            ("b".to_owned(), Output::Bool(true)),
            ("c".to_owned(), Output::Interval(points(&[2, 3, 4]))),
            ("d".to_owned(), Output::Interval(points(&[5, 6]))),
            ("e".to_owned(), Output::Interval(points(&[7, 8, 9]))),
        ],
    };

    let mut expected = Vec::new();
    for e in [7, 8, 9] {
        for d in [5, 6] {
            for c in [2, 3, 4] {
                expected.push(single(vec![
                    ("a", point(1)),
                    ("b", Output::Bool(true)),
                    ("c", point(c)),
                    ("d", point(d)),
                    ("e", point(e)),
                ]));
            }
        }
    }
    assert_eq!(expected.len(), 18);

    let result = ntuple_multi_cartesian_product(&input);
    same_cases(&result, &expected);
}

#[test]
fn cartesian_product_of_an_empty_union_is_empty() {
    let input = NTupleOutput {
        outputs: vec![
            ("a".to_owned(), Output::Interval(points(&[1, 2]))),
            ("b".to_owned(), Output::Interval(MultiInterval::new_empty())),
        ],
    };
    assert!(ntuple_multi_cartesian_product(&input).is_empty());
}

fn bool_and_less_than_fifty() -> NTupleInput {
    // true;   <50; *
    NTupleInput {
        inputs: vec![
            (
                "x".to_owned(),
                Input::Bool(BoolDTO {
                    expression: BoolExpression::IsTrue,
                    bool_val: true,
                    is_constant: false,
                }),
            ),
            (
                "y".to_owned(),
                Input::Interval(IntervalDTO {
                    expression: Expression::LessThan,
                    interval: MultiInterval::new(Open, NEG_INFINITY, fx(50.0), Open).unwrap(),
                    precision: fx(0.01),
                    is_constant: false,
                }),
            ),
        ],
    }
}

fn closed(lo: i64, hi: i64) -> Output<Interval> {
    Output::Interval(Interval::new_closed(lo, hi).unwrap())
}

#[test]
fn test_generate_test_cases_for_inputs() {
    let inputs = bool_and_less_than_fifty();

    let expected = vec![
        // in
        single(vec![("x", Output::Bool(true)), ("y", closed(NEG_INFINITY, fx(49.99)))]),
        // on
        single(vec![("x", Output::Bool(true)), ("y", point(fx(49.99)))]),
        // inin
        single(vec![("x", Output::Bool(true)), ("y", closed(NEG_INFINITY, fx(49.98)))]),
        // Bool False
        single(vec![("x", Output::Bool(false)), ("y", closed(NEG_INFINITY, fx(49.99)))]),
        // Out
        single(vec![("x", Output::Bool(true)), ("y", closed(fx(50.01), INFINITY))]),
        // Off
        single(vec![("x", Output::Bool(true)), ("y", point(fx(50.0)))]),
    ];

    let result = generate_test_cases_for_inputs(&inputs);
    same_cases(&result, &expected);
}

#[test]
fn bool_and_number_feature_gives_distinct_cases() {
    let result = generate_test_cases_for_inputs(&bool_and_less_than_fifty());
    let mut distinct: Vec<Vec<(String, Output<Interval>)>> = Vec::new();
    for case in &result {
        let key = sorted(case);
        if !distinct.contains(&key) {
            distinct.push(key);
        }
    }
    assert_eq!(distinct.len(), result.len());
    assert_eq!(distinct.len(), 6);
}

#[test]
fn constants_get_no_rejecting_variants() {
    let inputs = NTupleInput {
        inputs: vec![
            (
                "c".to_owned(),
                Input::Bool(BoolDTO {
                    expression: BoolExpression::IsTrue,
                    bool_val: true,
                    is_constant: true,
                }),
            ),
            (
                "n".to_owned(),
                Input::Interval(IntervalDTO {
                    expression: Expression::Interval,
                    interval: MultiInterval::new(Closed, 0, 10, Closed).unwrap(),
                    precision: 1,
                    is_constant: true,
                }),
            ),
        ],
    };
    let result = generate_test_cases_for_inputs(&inputs);
    // The three baselines keep the constant range; they are all the same.
    same_cases(&result, &[single(vec![("c", Output::Bool(true)), ("n", closed(0, 10))])]);
}

#[test]
fn narrow_range_falls_back_to_on() {
    // [1, 1.42) at precision 0.42: in is [1, 1]; inin would invert, so on.
    let inputs = NTupleInput {
        inputs: vec![(
            "y".to_owned(),
            Input::Interval(IntervalDTO {
                expression: Expression::Interval,
                interval: MultiInterval::new(Closed, fx(1.0), fx(1.42), Open).unwrap(),
                precision: fx(0.42),
                is_constant: false,
            }),
        )],
    };
    let result = generate_test_cases_for_inputs(&inputs);
    let expected = vec![
        single(vec![("y", point(fx(1.0)))]),
        single(vec![("y", point(fx(0.58)))]),
        single(vec![("y", point(fx(1.42)))]),
        single(vec![("y", closed(NEG_INFINITY, fx(0.16)))]),
        single(vec![("y", closed(fx(1.84), INFINITY))]),
    ];
    same_cases(&result, &expected);
}

#[test]
fn multiple_features_concatenate_and_reject_out_of_range() {
    let features = vec![vec![bool_and_less_than_fifty()], vec![bool_and_less_than_fifty()]];
    let result = generate_test_cases_for_multiple_features(&features).unwrap();
    assert_eq!(result.len(), 12);

    let too_large = vec![vec![NTupleInput {
        inputs: vec![(
            "y".to_owned(),
            Input::Interval(IntervalDTO {
                expression: Expression::LessThan,
                interval: MultiInterval::new(Open, NEG_INFINITY, i64::MAX - 1, Open).unwrap(),
                precision: 1,
                is_constant: false,
            }),
        )],
    }]];
    assert!(matches!(
        generate_test_cases_for_multiple_features(&too_large),
        Err(IntervalError::OutOfRange)
    ));
}

#[test]
fn rejecting_variants_start_from_the_in_baseline_with_its_fallback() {
    // y in [0, 1) at step 2: `in` is empty, so the baseline falls back to `on`, y = 0.
    let inputs = NTupleInput {
        inputs: vec![
            (
                "x".to_owned(),
                Input::Bool(BoolDTO {
                    expression: BoolExpression::IsTrue,
                    bool_val: true,
                    is_constant: false,
                }),
            ),
            (
                "y".to_owned(),
                Input::Interval(IntervalDTO {
                    expression: Expression::Interval,
                    interval: MultiInterval::new(Closed, 0, 1, Open).unwrap(),
                    precision: 2,
                    is_constant: false,
                }),
            ),
        ],
    };
    let result = generate_test_cases_for_inputs(&inputs);
    let expected = vec![
        single(vec![("x", Output::Bool(true)), ("y", point(0))]),
        single(vec![("x", Output::Bool(false)), ("y", point(0))]),
        single(vec![("x", Output::Bool(true)), ("y", point(-2))]),
        single(vec![("x", Output::Bool(true)), ("y", point(1))]),
        single(vec![("x", Output::Bool(true)), ("y", closed(NEG_INFINITY, -4))]),
        single(vec![("x", Output::Bool(true)), ("y", closed(3, INFINITY))]),
    ];
    same_cases(&result, &expected);
}

#[test]
fn constants_keep_their_range_in_rejecting_variants() {
    let inputs = NTupleInput {
        inputs: vec![
            (
                "c".to_owned(),
                Input::Interval(IntervalDTO {
                    expression: Expression::Interval,
                    interval: MultiInterval::new(Closed, 0, 10, Closed).unwrap(),
                    precision: 1,
                    is_constant: true,
                }),
            ),
            (
                "b".to_owned(),
                Input::Bool(BoolDTO {
                    expression: BoolExpression::IsTrue,
                    bool_val: true,
                    is_constant: false,
                }),
            ),
        ],
    };
    let result = generate_test_cases_for_inputs(&inputs);
    same_cases(
        &result,
        &[
            single(vec![("c", closed(0, 10)), ("b", Output::Bool(true))]),
            single(vec![("c", closed(0, 10)), ("b", Output::Bool(false))]),
        ],
    );
}
