use gpt_common::dto::{NTupleSingleInterval, Output};
use gpt_common::graph_reduction::{
    create_graph, run_MONKE, run_least_losing_components, run_least_losing_edges,
    run_least_losing_edges_reachable, run_most_losing_edges, NTupleGraph,
};
use gpt_common::interval::{Boundary, Interval};

use Boundary::{Closed, Open};

fn iv(lo_boundary: Boundary, lo: i64, hi: i64, hi_boundary: Boundary) -> Output<Interval> {
    Output::Interval(Interval::new(lo_boundary, lo, hi, hi_boundary).unwrap())
}

fn case(outputs: Vec<(&str, Output<Interval>)>) -> NTupleSingleInterval {
    NTupleSingleInterval {
        outputs: outputs.into_iter().map(|(k, v)| (k.to_owned(), v)).collect(),
    }
}

fn sorted(t: &NTupleSingleInterval) -> Vec<(String, Output<Interval>)> {
    let mut v = t.outputs.clone();
    v.sort_by(|a, b| a.0.cmp(&b.0));
    v
}

fn sample_cases() -> Vec<NTupleSingleInterval> {
    vec![
        case(vec![("x", iv(Closed, 0, 10, Closed)), ("b", Output::Bool(true))]),
        case(vec![("x", iv(Closed, 5, 20, Closed)), ("b", Output::Bool(true))]),
        case(vec![("x", iv(Closed, 15, 30, Closed))]),
        case(vec![("x", iv(Closed, 25, 40, Open)), ("b", Output::Bool(false))]),
        case(vec![("x", iv(Closed, 40, 50, Closed))]),
        case(vec![("b", Output::Bool(true)), ("y", Output::MissingVariable)]),
        case(vec![("x", iv(Closed, 8, 9, Closed)), ("y", iv(Open, 0, 1, Open))]),
    ]
}

fn check_reduced(start: &NTupleGraph, reduced: &NTupleGraph) {
    assert_eq!(reduced.edge_count(), 0);
    assert!(reduced.node_count() <= start.node_count());
    assert!(reduced.node_count() >= 1);
    for node in reduced.nodes() {
        for (_, out) in &node.outputs {
            if let Output::Interval(i) = out {
                assert!(i.lo <= i.hi);
            }
        }
    }
    let nodes = reduced.nodes();
    for i in 0..nodes.len() {
        for j in 0..nodes.len() {
            if i != j {
                assert!(!nodes[i].intersects_with(&nodes[j]));
            }
        }
    }
}

#[test]
fn create_graph_joins_cases_that_hold_together() {
    let cases = sample_cases();
    let graph = create_graph(&cases);
    assert_eq!(graph.node_count(), cases.len());
    let mut expected_edges = 0;
    for i in 0..cases.len() {
        for j in (i + 1)..cases.len() {
            if cases[i].intersects_with(&cases[j]) {
                expected_edges += 1;
            }
        }
    }
    assert_eq!(graph.edge_count(), expected_edges);
    assert!(expected_edges > 0);
}

#[test]
fn monke_merges_two_joined_nodes_into_their_intersection() {
    let a = case(vec![("x", iv(Closed, 0, 10, Closed)), ("b", Output::Bool(true))]);
    let b = case(vec![("x", iv(Open, 5, 20, Closed)), ("z", Output::Bool(false))]);
    let graph = create_graph(&vec![a.clone(), b.clone()]);
    assert_eq!(graph.edge_count(), 1);
    let reduced = run_MONKE(&graph);
    let nodes = reduced.nodes();
    assert_eq!(nodes.len(), 1);
    let expected = a.intersect(&b).unwrap();
    assert_eq!(sorted(&nodes[0]), sorted(&expected));
    assert_eq!(
        sorted(&nodes[0]),
        sorted(&case(vec![
            ("x", iv(Open, 5, 10, Closed)),
            ("b", Output::Bool(true)),
            ("z", Output::Bool(false)),
        ]))
    );
}

#[test]
fn every_strategy_ends_without_edges() {
    let graph = create_graph(&sample_cases());
    check_reduced(&graph, &run_MONKE(&graph));
    check_reduced(&graph, &run_least_losing_edges(&graph));
    check_reduced(&graph, &run_most_losing_edges(&graph));
    check_reduced(&graph, &run_least_losing_edges_reachable(&graph));
    check_reduced(&graph, &run_least_losing_components(&graph));
}

#[test]
fn reducing_a_graph_without_edges_keeps_it() {
    let cases = vec![
        case(vec![("x", iv(Closed, 0, 1, Closed))]),
        case(vec![("x", iv(Closed, 2, 3, Closed))]),
    ];
    let graph = create_graph(&cases);
    assert_eq!(graph.edge_count(), 0);
    let reduced = run_least_losing_components(&graph);
    assert_eq!(reduced.node_count(), 2);
}

#[test]
fn intersecting_a_case_with_itself_gives_it_back() {
    for c in sample_cases() {
        assert_eq!(c.intersect(&c), Some(c.clone()));
    }
}

#[test]
fn wildcard_blocks_nothing() {
    let a = case(vec![("x", Output::MissingVariable)]);
    let b = case(vec![("x", iv(Closed, 1, 2, Closed))]);
    assert!(a.intersects_with(&b));
    assert_eq!(a.intersect(&b), Some(b.clone()));
    let c = case(vec![("x", Output::Bool(true))]);
    assert!(!c.intersects_with(&b));
    assert_eq!(c.intersect(&b), None);
}

#[test]
fn ntuple_intersects_with_cases() {
    let same_a = case(vec![("x", iv(Closed, 10, 20, Closed)), ("y", Output::Bool(true))]);
    let same_b = case(vec![("x", iv(Closed, 10, 20, Closed)), ("y", Output::Bool(true))]);
    assert!(same_a.intersects_with(&same_b));

    let left = case(vec![("x", iv(Closed, 0, 100, Closed)), ("y", Output::Bool(true))]);
    let right = case(vec![("x", iv(Closed, 10, 20, Closed)), ("z", Output::Bool(false))]);
    assert!(left.intersects_with(&right));
    assert!(case(vec![]).intersects_with(&right));
    assert!(left.intersects_with(&case(vec![])));
    assert!(case(vec![]).intersects_with(&case(vec![])));

    let other = case(vec![("x", iv(Closed, 10, 20, Closed)), ("y", Output::Bool(false))]);
    assert!(!same_a.intersects_with(&other));
    assert_eq!(same_a.intersect(&other), None);
}

#[test]
fn ntuple_intersect_keeps_variables_of_both() {
    let left = case(vec![("x", iv(Closed, 0, 100, Closed)), ("y", Output::Bool(true))]);
    let right = case(vec![("x", iv(Open, 10, 20, Closed)), ("z", Output::Bool(false))]);
    assert_eq!(
        left.intersect(&right),
        Some(case(vec![
            ("x", iv(Open, 10, 20, Closed)),
            ("y", Output::Bool(true)),
            ("z", Output::Bool(false)),
        ]))
    );
}

#[test]
fn strategies_leave_an_edgeless_graph_as_it_is() {
    let cases = vec![
        case(vec![("x", iv(Closed, 0, 1, Closed))]),
        case(vec![("x", iv(Closed, 2, 3, Closed))]),
        case(vec![("x", iv(Open, 5, 9, Open))]),
    ];
    let graph = create_graph(&cases);
    for reduced in [
        run_MONKE(&graph),
        run_least_losing_edges(&graph),
        run_most_losing_edges(&graph),
        run_least_losing_edges_reachable(&graph),
        run_least_losing_components(&graph),
    ] {
        let mut got: Vec<_> = reduced.nodes().iter().map(sorted).collect();
        let mut want: Vec<_> = cases.iter().map(sorted).collect();
        got.sort_by(|a, b| format!("{:?}", a).cmp(&format!("{:?}", b)));
        want.sort_by(|a, b| format!("{:?}", a).cmp(&format!("{:?}", b)));
        assert_eq!(got, want);
    }
}

#[test]
fn strategies_shrink_a_graph_with_edges() {
    let graph = create_graph(&sample_cases());
    assert!(graph.edge_count() > 0);
    for reduced in [
        run_MONKE(&graph),
        run_least_losing_edges(&graph),
        run_most_losing_edges(&graph),
        run_least_losing_edges_reachable(&graph),
        run_least_losing_components(&graph),
    ] {
        assert!(reduced.node_count() < graph.node_count());
    }
}
