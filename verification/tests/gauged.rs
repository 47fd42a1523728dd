use rdp::outline::Reading;
use rdp::simplify::{farthest_between, simplify_by};

fn hypotenuse(start: &[f64; 2], end: &[f64; 2]) -> f64 {
    let (dx, dy) = (start[0] - end[0], start[1] - end[1]);
    dx.hypot(dy)
}

fn perpendicular_distance(point: &[f64; 2], start: &[f64; 2], end: &[f64; 2]) -> f64 {
    if start == end {
        hypotenuse(point, start)
    } else {
        let numerator = ((end[0] - start[0]) * (start[1] - point[1])
            - (start[0] - point[0]) * (end[1] - start[1]))
            .abs();
        numerator / hypotenuse(start, end)
    }
}

fn reading(distance: f64, tolerance: f64) -> Reading {
    let deviation = if distance > 0.0 { distance.to_bits() as u128 } else { 0 };
    Reading { deviation, beyond: distance > tolerance }
}

fn rdp(points: &[[f64; 2]], tolerance: &f64) -> Vec<[f64; 2]> {
    let kept = simplify_by(points.len(), |p: usize, s: usize, e: usize| {
        reading(perpendicular_distance(&points[p], &points[s], &points[e]), *tolerance)
    });
    kept.iter().map(|&at| points[at]).collect()
}

#[test]
fn test_rdp() {
    let points = vec![[0.0, 0.0], [5.0, 4.0], [11.0, 5.5], [17.3, 3.2], [27.8, 0.1]];
    let foo: Vec<_> = rdp(&points, &1.0);
    assert_eq!(foo, vec![[0.0, 0.0], [5.0, 4.0], [11.0, 5.5], [27.8, 0.1]]);
}

#[test]
fn test_array_conversion() {
    let original = vec![[0.0, 0.0], [5.0, 4.0], [11.0, 5.5], [17.3, 3.2], [27.8, 0.1]];
    let converted: Vec<_> = original.into();
    assert_eq!(converted,
               vec![[0.0, 0.0], [5.0, 4.0], [11.0, 5.5], [17.3, 3.2], [27.8, 0.1]]);
}

#[test]
fn simplify_by_keeps_short_lines() {
    let never = |_: usize, _: usize, _: usize| -> Reading { unreachable!() };
    assert_eq!(simplify_by(0, never), Vec::<usize>::new());
    assert_eq!(simplify_by(1, never), vec![0]);
    assert_eq!(simplify_by(2, never), vec![0, 1]);
    for tolerance in [0.0, 0.5, 1e9] {
        assert_eq!(rdp(&[], &tolerance), Vec::<[f64; 2]>::new());
        assert_eq!(rdp(&[[1.0, 1.0]], &tolerance), vec![[1.0, 1.0]]);
        assert_eq!(rdp(&[[0.0, 0.0], [1.0, 1.0]], &tolerance), vec![[0.0, 0.0], [1.0, 1.0]]);
    }
}

#[test]
fn simplify_by_collapses_collinear_points() {
    for tolerance in [0.0, 0.25, 3.0] {
        let points = [[0.0, 0.0], [1.5, 1.5], [4.0, 4.0]];
        assert_eq!(rdp(&points, &tolerance), vec![[0.0, 0.0], [4.0, 4.0]]);
    }
}

#[test]
fn simplify_by_asks_only_about_inner_points() {
    let asked = std::cell::RefCell::new(Vec::new());
    let kept = simplify_by(4, |p: usize, s: usize, e: usize| {
        asked.borrow_mut().push((p, s, e));
        Reading { deviation: if p == 2 { 9 } else { 1 }, beyond: p == 2 }
    });
    assert_eq!(kept, vec![0, 2, 3]);
    assert_eq!(asked.into_inner(), vec![(1, 0, 3), (2, 0, 3), (1, 0, 2)]);
}

#[test]
fn simplify_by_cuts_at_the_first_largest_deviation() {
    // Every inner point deviates alike from the chord across all five; only
    // a cut at the first of them leaves none of the others beyond.
    let kept = simplify_by(5, |_: usize, s: usize, e: usize| {
        Reading { deviation: 7, beyond: s == 0 && e == 4 }
    });
    assert_eq!(kept, vec![0, 1, 4]);
    // A later point that deviates more is preferred.
    let kept = simplify_by(5, |p: usize, s: usize, e: usize| {
        Reading { deviation: p as u128, beyond: s == 0 && e == 4 }
    });
    assert_eq!(kept, vec![0, 3, 4]);
}

#[test]
fn simplify_by_keeps_everything_that_is_beyond() {
    let kept = simplify_by(6, |_: usize, _: usize, _: usize| Reading { deviation: 0, beyond: true });
    assert_eq!(kept, vec![0, 1, 2, 3, 4, 5]);
    let kept = simplify_by(6, |_: usize, _: usize, _: usize| {
        Reading { deviation: u128::MAX, beyond: false }
    });
    assert_eq!(kept, vec![0, 5]);
}

#[test]
fn simplified_floats_are_idempotent_and_monotonic() {
    let points: Vec<[f64; 2]> = (0..40)
        .map(|i| {
            let x = i as f64 * 0.37;
            [x, (x * 1.3).sin() * 2.0 + (x * 0.2).cos()]
        })
        .collect();
    let mut before = points.len();
    for step in 0..30 {
        let tolerance = step as f64 * 0.1;
        let once = rdp(&points, &tolerance);
        assert_eq!(rdp(&once, &tolerance), once);
        assert!(once.len() <= before);
        assert_eq!(once.first(), points.first());
        assert_eq!(once.last(), points.last());
        before = once.len();
    }
    assert_eq!(before, 2);
}

#[test]
fn a_deviation_that_is_no_number_is_never_the_largest() {
    let points = [[0.0, 0.0], [1.0, f64::NAN], [2.0, 3.0], [4.0, 0.0]];
    let kept = rdp(&points, &1.0);
    assert_eq!(kept.len(), 3);
    assert_eq!(kept[1], [2.0, 3.0]);
}

#[test]
fn farthest_between_finds_the_first_largest_deviation() {
    let deviations = [0u128, 3, 9, 4, 9, 2, 0];
    let gauge = |p: usize, _: usize, _: usize| Reading { deviation: deviations[p], beyond: p % 2 == 0 };
    assert_eq!(farthest_between(&gauge, 0, 6), (2, Reading { deviation: 9, beyond: true }));
    assert_eq!(farthest_between(&gauge, 2, 6), (4, Reading { deviation: 9, beyond: true }));
    assert_eq!(farthest_between(&gauge, 4, 6), (5, Reading { deviation: 2, beyond: false }));
    assert_eq!(farthest_between(&gauge, 0, 2), (1, Reading { deviation: 3, beyond: false }));
    let level = |_: usize, _: usize, _: usize| Reading { deviation: 0, beyond: false };
    assert_eq!(farthest_between(&level, 3, 9), (4, Reading { deviation: 0, beyond: false }));
}

#[test]
fn farthest_between_measures_against_the_chord_it_is_given() {
    let points = [[0.0, 0.0], [1.0, 1.0], [2.0, 3.0], [3.0, 0.5], [4.0, 0.0]];
    let gauge = |p: usize, s: usize, e: usize| {
        reading(perpendicular_distance(&points[p], &points[s], &points[e]), 0.5)
    };
    let (at, found) = farthest_between(&gauge, 0, 4);
    assert_eq!(at, 2);
    assert_eq!(found, Reading { deviation: 3.0f64.to_bits() as u128, beyond: true });
    let (at, found) = farthest_between(&gauge, 0, 2);
    assert_eq!(at, 1);
    assert!(!found.beyond);
}

#[test]
fn simplify_by_goes_deep_without_recursion() {
    // Every stretch is cut at its first inner point: the line is parted
    // two hundred thousand times, one inside the other.
    let len = 200_000;
    let kept = simplify_by(len, |p: usize, s: usize, _: usize| {
        Reading { deviation: 1, beyond: p == s + 1 }
    });
    assert_eq!(kept.len(), len);
    assert!(kept.iter().enumerate().all(|(i, &at)| i == at));
}

#[test]
fn a_negative_tolerance_keeps_every_point() {
    let points = [[0.0, 0.0], [1.0, 1.0], [2.0, 2.0], [3.0, 2.5], [4.0, 4.0]];
    assert_eq!(rdp(&points, &-1.0), points.to_vec());
}

#[test]
fn a_tolerance_that_is_no_number_keeps_only_the_ends() {
    let points = [[0.0, 0.0], [1.0, 9.0], [2.0, -7.0], [3.0, 2.5], [4.0, 4.0]];
    assert_eq!(rdp(&points, &f64::NAN), vec![[0.0, 0.0], [4.0, 4.0]]);
    assert_eq!(rdp(&points, &f64::INFINITY), vec![[0.0, 0.0], [4.0, 4.0]]);
}

#[test]
fn a_closed_line_is_measured_from_its_start() {
    let points = [[0.0, 0.0], [3.0, 4.0], [6.0, 0.0], [0.0, 0.0]];
    assert_eq!(rdp(&points, &5.5), vec![[0.0, 0.0], [6.0, 0.0], [0.0, 0.0]]);
    assert_eq!(rdp(&points, &6.0), vec![[0.0, 0.0], [0.0, 0.0]]);
}
