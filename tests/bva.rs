use gpt_common::interval::{Boundary, Interval, MultiInterval, INFINITY, NEG_INFINITY};
use gpt_common::test_value_generator::test_value_for_interval;

use Boundary::{Closed, Open};

/// Values are fixed-point with a hundred units to one.
fn fx(v: f32) -> i64 {
    (v * 100.0).round() as i64
}

fn iv(lo_boundary: Boundary, lo: i64, hi: i64, hi_boundary: Boundary) -> Interval {
    Interval::new(lo_boundary, lo, hi, hi_boundary).unwrap()
}

fn points(ps: &[i64]) -> MultiInterval {
    MultiInterval::from_intervals(ps.iter().map(|p| Interval::new_closed_point(*p)).collect())
}

fn closed(lo: i64, hi: i64) -> MultiInterval {
    MultiInterval::new_closed(lo, hi).unwrap()
}

#[test]
fn boundary_values_of_half_open_range() {
    // [1, 10) at precision 0.01
    let i = iv(Closed, fx(1.0), fx(10.0), Open);
    let p = fx(0.01);
    assert_eq!(i.calc_in(p), closed(fx(1.0), fx(9.99)));
    assert_eq!(i.on(p), points(&[fx(1.0), fx(9.99)]));
    assert_eq!(i.off(p), points(&[fx(0.99), fx(10.0)]));
    assert_eq!(
        i.out(p),
        MultiInterval::from_intervals(vec![
            iv(Open, NEG_INFINITY, fx(0.98), Closed),
            iv(Closed, fx(10.01), INFINITY, Open),
        ])
    );
    assert_eq!(i.inin(p), closed(fx(1.01), fx(9.98)));
    assert_eq!(
        i.off_out(p),
        MultiInterval::from_intervals(vec![
            iv(Open, NEG_INFINITY, fx(0.99), Closed),
            iv(Closed, fx(10.0), INFINITY, Open),
        ])
    );
}

#[test]
fn interval_in() {
    let p = fx(0.01);
    assert_eq!(iv(Closed, fx(1.0), fx(10.0), Closed).calc_in(p), closed(fx(1.0), fx(10.0)));
    assert_eq!(iv(Open, fx(1.0), fx(10.0), Open).calc_in(p), closed(fx(1.01), fx(9.99)));
    assert_eq!(iv(Open, fx(1.0), fx(10.0), Closed).calc_in(p), closed(fx(1.01), fx(10.0)));
    assert_eq!(
        iv(Open, NEG_INFINITY, fx(10.0), Open).calc_in(p),
        MultiInterval::from_intervals(vec![iv(Open, NEG_INFINITY, fx(9.99), Closed)])
    );
    assert_eq!(
        iv(Open, fx(10.0), INFINITY, Open).calc_in(p),
        MultiInterval::from_intervals(vec![iv(Closed, fx(10.01), INFINITY, Open)])
    );
    assert_eq!(
        iv(Open, NEG_INFINITY, INFINITY, Open).calc_in(p),
        MultiInterval::from_intervals(vec![iv(Open, NEG_INFINITY, INFINITY, Open)])
    );
    assert_eq!(iv(Closed, fx(1.0), fx(1.0), Closed).calc_in(p), closed(fx(1.0), fx(1.0)));
    assert!(iv(Closed, fx(1.0), fx(1.0), Open).calc_in(p).is_empty());
    assert!(iv(Open, fx(1.0), fx(1.0), Closed).calc_in(p).is_empty());
    assert!(iv(Open, fx(1.0), fx(1.0), Open).calc_in(p).is_empty());
    assert_eq!(iv(Closed, fx(1.0), fx(1.42), Open).calc_in(fx(0.42)), closed(fx(1.0), fx(1.0)));
    assert_eq!(iv(Open, fx(0.5), fx(1.0), Closed).calc_in(fx(0.5)), closed(fx(1.0), fx(1.0)));
    assert!(iv(Open, fx(1.0), fx(10.0), Open).calc_in(fx(100.0)).is_empty());
    assert!(iv(Open, fx(1.0), fx(10.0), Closed).calc_in(fx(100.0)).is_empty());
    assert!(iv(Closed, fx(1.0), fx(10.0), Open).calc_in(fx(100.0)).is_empty());
}

#[test]
fn interval_on() {
    let p = fx(0.01);
    assert_eq!(iv(Closed, fx(1.0), fx(10.0), Closed).on(p), points(&[fx(1.0), fx(10.0)]));
    assert_eq!(iv(Open, fx(1.0), fx(10.0), Open).on(p), points(&[fx(1.01), fx(9.99)]));
    assert_eq!(iv(Open, fx(1.0), fx(10.0), Closed).on(p), points(&[fx(1.01), fx(10.0)]));
    assert_eq!(iv(Open, NEG_INFINITY, fx(10.0), Closed).on(p), points(&[fx(10.0)]));
    assert_eq!(iv(Open, NEG_INFINITY, fx(10.0), Open).on(p), points(&[fx(9.99)]));
    assert_eq!(iv(Closed, fx(10.0), INFINITY, Open).on(p), points(&[fx(10.0)]));
    assert_eq!(iv(Open, fx(10.0), INFINITY, Open).on(p), points(&[fx(10.01)]));
    assert!(iv(Open, NEG_INFINITY, INFINITY, Open).on(p).is_empty());
    assert_eq!(iv(Closed, fx(1.0), fx(1.0), Closed).on(p), points(&[fx(1.0)]));
    assert!(iv(Closed, fx(1.0), fx(1.0), Open).on(p).is_empty());
    assert!(iv(Open, fx(1.0), fx(1.0), Closed).on(p).is_empty());
    assert!(iv(Open, fx(1.0), fx(1.0), Open).on(p).is_empty());
    assert_eq!(iv(Closed, fx(1.0), fx(1.42), Open).on(fx(0.42)), points(&[fx(1.0)]));
    assert_eq!(iv(Open, fx(0.5), fx(1.0), Closed).on(fx(0.5)), points(&[fx(1.0)]));
    assert_eq!(iv(Closed, fx(1.0), fx(10.0), Closed).on(fx(100.0)), points(&[fx(1.0), fx(10.0)]));
    assert_eq!(iv(Closed, fx(1.0), fx(10.0), Open).on(fx(100.0)), points(&[fx(1.0)]));
    assert_eq!(iv(Open, fx(1.0), fx(10.0), Closed).on(fx(100.0)), points(&[fx(10.0)]));
    assert!(iv(Open, fx(1.0), fx(10.0), Open).on(fx(100.0)).is_empty());
}

#[test]
fn on_points_cross_and_are_sorted() {
    // (0, 3) at precision 2: the lower step lands above the upper one.
    assert_eq!(iv(Open, 0, 3, Open).on(2), points(&[1, 2]));
}

#[test]
fn on_lies_inside_and_off_outside() {
    let p = 3;
    for i in [
        iv(Closed, -10, 10, Open),
        iv(Open, -10, 10, Closed),
        iv(Open, NEG_INFINITY, 4, Closed),
        iv(Closed, 4, INFINITY, Open),
        iv(Closed, 4, 4, Closed),
    ] {
        for m in [i.on(p), i.off(p)] {
            for piece in m.intervals() {
                assert_eq!(piece.lo, piece.hi);
                assert_eq!(piece.lo_boundary, Closed);
                assert_eq!(piece.hi_boundary, Closed);
            }
        }
        for piece in i.on(p).intervals() {
            assert!(i.contains_point(piece.lo));
        }
        for piece in i.off(p).intervals() {
            assert!(!i.contains_point(piece.lo));
        }
    }
}

#[test]
fn multiinterval_bva_per_interval() {
    // x != 5 at precision 1: two rays.
    let m = MultiInterval::from_intervals(vec![
        iv(Open, NEG_INFINITY, 5, Open),
        iv(Open, 5, INFINITY, Open),
    ]);
    assert_eq!(
        m.calc_in(1),
        MultiInterval::from_intervals(vec![
            iv(Open, NEG_INFINITY, 4, Closed),
            iv(Closed, 6, INFINITY, Open),
        ])
    );
    assert_eq!(m.on(1), points(&[4, 6]));
    assert_eq!(m.off(1), points(&[5]));
    assert_eq!(m.inin(1), MultiInterval::from_intervals(vec![
        iv(Open, NEG_INFINITY, 3, Closed),
        iv(Closed, 7, INFINITY, Open),
    ]));
    assert_eq!(m.out(1), MultiInterval::from_intervals(vec![
        iv(Open, NEG_INFINITY, 4, Closed),
        iv(Closed, 6, INFINITY, Open),
    ]));
    assert_eq!(m.off_out(1), MultiInterval::from_intervals(vec![iv(Open, NEG_INFINITY, INFINITY, Open)]));
}

#[test]
fn test_value_for_intervals() {
    assert_eq!(test_value_for_interval(&iv(Open, NEG_INFINITY, INFINITY, Open)), Some(0));
    assert_eq!(test_value_for_interval(&iv(Open, NEG_INFINITY, 7, Closed)), Some(7));
    assert_eq!(test_value_for_interval(&iv(Closed, 3, INFINITY, Open)), Some(3));
    assert_eq!(test_value_for_interval(&iv(Closed, 3, 9, Open)), Some(3));
    assert_eq!(test_value_for_interval(&iv(Closed, 3, 3, Open)), None);
}
