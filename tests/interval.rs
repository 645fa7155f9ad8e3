use gpt_common::interval::{Boundary, Interval, MultiInterval, INFINITY, NEG_INFINITY};

use Boundary::{Closed, Open};

fn iv(lo_boundary: Boundary, lo: i64, hi: i64, hi_boundary: Boundary) -> Interval {
    Interval::new(lo_boundary, lo, hi, hi_boundary).unwrap()
}

fn multi(intervals: Vec<Interval>) -> MultiInterval {
    MultiInterval::from_intervals(intervals)
}

fn full_line() -> MultiInterval {
    multi(vec![iv(Open, NEG_INFINITY, INFINITY, Open)])
}

#[test]
fn test_multiinterval_axioms() {
    // [-42, 3) (3, 67) (100, 101) [205, 607] (700, Inf)
    let input1 = multi(vec![
        iv(Closed, -42, 3, Open),
        iv(Open, 3, 67, Open),
        iv(Open, 100, 101, Open),
        iv(Closed, 205, 607, Closed),
        iv(Open, 700, INFINITY, Open),
    ]);

    assert_eq!(
        input1.inverse().inverse(),
        input1,
        "The inverse of an inverse should give the input back",
    );
    assert_eq!(
        input1.intersect(&full_line()),
        Some(input1.clone()),
        "Intersecting something with (-Inf, Inf) should give the input back"
    );
    assert!(
        !input1.intersects_with(&input1.inverse()),
        "An interval can't be intersected with its inverse"
    );
    assert_eq!(
        input1.intersect(&input1.inverse()),
        None,
        "An interval can't be intersected with its inverse"
    );
}

#[test]
fn inverse_of_complex_union() {
    let input = multi(vec![
        iv(Closed, -42, 3, Open),
        iv(Open, 3, 67, Open),
        iv(Open, 100, 101, Open),
        iv(Closed, 205, 607, Closed),
        iv(Open, 700, INFINITY, Open),
    ]);
    let expected = multi(vec![
        iv(Open, NEG_INFINITY, -42, Open),
        iv(Closed, 3, 3, Closed),
        iv(Closed, 67, 100, Closed),
        iv(Closed, 101, 205, Open),
        iv(Open, 607, 700, Closed),
    ]);
    assert_eq!(input.inverse(), expected);
    assert_eq!(expected.inverse(), input);
}

#[test]
fn inverse_of_empty_and_full() {
    assert_eq!(MultiInterval::new_empty().inverse(), full_line());
    assert!(full_line().inverse().is_empty());
    assert_eq!(
        multi(vec![iv(Open, NEG_INFINITY, 10, Closed)]).inverse(),
        multi(vec![iv(Open, 10, INFINITY, Open)])
    );
}

#[test]
fn interval_new_rejects_reversed_ends_and_opens_infinite_sides() {
    assert!(Interval::new(Closed, 5, 4, Closed).is_err());
    let i = iv(Closed, NEG_INFINITY, INFINITY, Closed);
    assert_eq!(i.lo_boundary, Open);
    assert_eq!(i.hi_boundary, Open);
}

#[test]
fn interval_contains_point() {
    assert!(!iv(Closed, 5, 10, Closed).contains_point(4));
    assert!(!iv(Open, 5, 10, Closed).contains_point(5));
    assert!(iv(Closed, 5, 10, Closed).contains_point(5));
    assert!(iv(Closed, 5, 10, Closed).contains_point(7));
    assert!(iv(Closed, 5, 10, Closed).contains_point(10));
    assert!(!iv(Closed, 5, 10, Open).contains_point(10));
    assert!(!iv(Closed, 5, 10, Open).contains_point(11));
}

#[test]
fn interval_is_empty() {
    assert!(iv(Open, 0, 0, Open).is_empty());
    assert!(iv(Open, 0, 0, Closed).is_empty());
    assert!(iv(Closed, 0, 0, Open).is_empty());
    assert!(!iv(Closed, 0, 0, Closed).is_empty());
    assert!(!iv(Open, 0, 1, Open).is_empty());
}

#[test]
fn interval_intersects_with_shared_endpoint() {
    assert!(iv(Closed, 0, 10, Closed).intersects_with(&iv(Closed, 10, 20, Closed)));
    assert!(!iv(Closed, 0, 10, Closed).intersects_with(&iv(Open, 10, 20, Closed)));
    assert!(!iv(Closed, 0, 10, Open).intersects_with(&iv(Closed, 10, 20, Closed)));
    assert!(iv(Closed, 10, 20, Closed).intersects_with(&iv(Closed, 0, 10, Closed)));
    assert!(!iv(Closed, 20, 30, Closed).intersects_with(&iv(Closed, 0, 10, Closed)));
    assert!(iv(Open, 10, 20, Open).intersects_with(&iv(Closed, 0, 30, Closed)));
}

#[test]
fn interval_intersect() {
    assert_eq!(
        iv(Closed, 0, 10, Closed).intersect(&iv(Closed, 10, 20, Closed)),
        Some(iv(Closed, 10, 10, Closed))
    );
    assert_eq!(iv(Closed, 0, 10, Open).intersect(&iv(Closed, 10, 20, Closed)), None);
    assert_eq!(
        iv(Closed, 0, 10, Open).intersect(&iv(Open, 5, 20, Closed)),
        Some(iv(Open, 5, 10, Open))
    );
    assert_eq!(
        iv(Closed, 0, 10, Closed).intersect(&iv(Open, 0, 20, Closed)),
        Some(iv(Open, 0, 10, Closed))
    );
    assert_eq!(
        iv(Closed, 10, 20, Closed).intersect(&iv(Closed, 0, 20, Open)),
        Some(iv(Closed, 10, 20, Open))
    );
}

#[test]
fn multiinterval_intersect() {
    let a = multi(vec![
        iv(Open, NEG_INFINITY, 10, Closed),
        iv(Closed, 20, 30, Closed),
        iv(Closed, 40, 50, Closed),
    ]);
    let b = multi(vec![
        iv(Open, NEG_INFINITY, 10, Open),
        iv(Closed, 15, 25, Closed),
        iv(Open, 26, 35, Closed),
    ]);
    let expected = multi(vec![
        iv(Open, NEG_INFINITY, 10, Open),
        iv(Closed, 20, 25, Closed),
        iv(Open, 26, 30, Closed),
    ]);
    assert_eq!(a.intersect(&b), Some(expected));
    assert_eq!(MultiInterval::new_empty().intersect(&a), None);
    assert_eq!(
        multi(vec![iv(Closed, 20, 50, Closed)])
            .intersect(&multi(vec![iv(Closed, 0, 30, Closed), iv(Closed, 40, 60, Closed)])),
        Some(multi(vec![iv(Closed, 20, 30, Closed), iv(Closed, 40, 50, Closed)]))
    );
}

#[test]
fn from_intervals_sorts_and_merges() {
    let m = multi(vec![
        iv(Closed, 20, 30, Closed),
        iv(Open, 0, 0, Open),
        iv(Closed, 0, 10, Open),
        iv(Closed, 10, 15, Closed),
        iv(Closed, 25, 40, Open),
    ]);
    assert_eq!(m.intervals(), &vec![iv(Closed, 0, 15, Closed), iv(Closed, 20, 40, Open)]);
    let apart = multi(vec![iv(Closed, 0, 10, Open), iv(Open, 10, 20, Closed)]);
    assert_eq!(apart.intervals().len(), 2);
}

#[test]
fn union_merges_touching_intervals() {
    let a = multi(vec![iv(Closed, 0, 10, Open)]);
    let b = multi(vec![iv(Closed, 10, 20, Closed)]);
    assert_eq!(a.union(&b), multi(vec![iv(Closed, 0, 20, Closed)]));
    assert_eq!(
        iv(Closed, 0, 1, Closed).union(&iv(Closed, 5, 6, Closed)),
        multi(vec![iv(Closed, 0, 1, Closed), iv(Closed, 5, 6, Closed)])
    );
}

#[test]
fn inverse_twice_on_single_interval() {
    for m in [
        multi(vec![iv(Closed, 10, 20, Open)]),
        multi(vec![iv(Open, NEG_INFINITY, 3, Closed)]),
        multi(vec![iv(Closed, 7, 7, Closed)]),
        full_line(),
        MultiInterval::new_empty(),
    ] {
        assert_eq!(m.inverse().inverse(), m);
        assert!(!m.intersects_with(&m.inverse()));
    }
}

#[test]
fn boundary_inverse() {
    assert_eq!(Open.inverse(), Closed);
    assert_eq!(Closed.inverse(), Open);
}
