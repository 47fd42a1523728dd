//! Simplification of polylines on the integer grid.
use crate::distance::{
    lemma_beyond_smaller, perpendicular, perpendicular_distance, Distance, Point,
};
use crate::laws::{lemma_dropped_within_tolerance, lemma_simplified_monotonic, steady, within};
use crate::outline::{
    lemma_farthest_interior, lemma_simplified_through, places, simplified, through, Gauge, Reading,
};
use crate::simplify::{positions, reports, rises, simplify_by};
use vstd::prelude::*;

verus! {

/// What a distance tells the simplifier under a tolerance.
pub open spec fn reading(distance: Distance, tolerance: u64) -> Reading {
    Reading { deviation: distance.rank(), beyond: distance.is_beyond(tolerance) }
}

/// The gauge of the integer grid: a point is measured by its exact
/// distance from the line through the ends of the chord, and is beyond the
/// tolerance when that distance is more than `tolerance`.
pub open spec fn grid_gauge(tolerance: u64) -> Gauge<Point> {
    |point: Point, start: Point, end: Point| reading(perpendicular(point, start, end), tolerance)
}

/// The point of `line` at a position.
pub open spec fn pick(line: Seq<Point>) -> spec_fn(usize) -> Point {
    |k: usize| line[k as int]
}

/// Measures `point` against the chord from `start` to `end`.
pub fn measure(point: &Point, start: &Point, end: &Point, tolerance: u64) -> (r: Reading)
    ensures
        r == grid_gauge(tolerance)(*point, *start, *end),
{
    let distance = perpendicular_distance(point, start, end);
    let deviation = match distance {
        Distance::ToPoint { squared } => squared,
        Distance::ToLine { area, base_squared } => area,
    };
    Reading { deviation, beyond: distance.exceeds(tolerance) }
}

/// Simplifies a polyline.
///
/// The points that stay are those of the line that [`simplified`] describes:
/// the ends of the line, and every point at which a stretch of the line was
/// cut because it lay farther than `tolerance` from the chord across that
/// stretch. A line of fewer than three points comes back as it is.
pub fn rdp(points: &[Point], tolerance: &u64) -> (line: Vec<Point>)
    ensures
        line@ == simplified(grid_gauge(*tolerance), points@),
{
    let len = points.len();
    let limit: u64 = *tolerance;
    let ghost label = pick(points@);
    let ghost by_position = through(grid_gauge(limit), label);
    let gauge = |p: usize, s: usize, e: usize| -> (r: Reading)
        requires
            s < p < e < len,
        ensures
            r == grid_gauge(limit)(points@[p as int], points@[s as int], points@[e as int]),
        { measure(&points[p], &points[s], &points[e], limit) };
    assert(reports(gauge, by_position, len as int));
    let kept = simplify_by(len, gauge);
    let mut line: Vec<Point> = Vec::new();
    let mut i: usize = 0;
    while i < kept.len()
        invariant
            i <= kept.len(),
            len == points@.len(),
            label == pick(points@),
            len < 2 ==> kept@ == positions(0, len as int),
            len >= 2 ==> rises(kept@, 0, len - 1),
            line@ == kept@.subrange(0, i as int).map_values(label),
        decreases kept.len() - i,
    {
        let at: usize = kept[i];
        assert(at < len) by {
            if len >= 2 && i < kept.len() - 1 {
                assert(kept@[i as int] < kept@[kept.len() - 1]);
            }
        }
        line.push(points[at]);
        proof {
            assert(kept@.subrange(0, i + 1).map_values(label) == kept@.subrange(
                0,
                i as int,
            ).map_values(label).push(label(at)));
        }
        i = i + 1;
    }
    proof {
        assert(kept@.subrange(0, kept.len() as int) == kept@);
        lemma_simplified_through(grid_gauge(limit), label, positions(0, len as int));
        assert(positions(0, len as int).map_values(label) == points@);
    }
    line
}

/// Three points, the second of which lies at distance zero from the chord
/// between the two others, are simplified to those two, under every
/// tolerance.
pub proof fn lemma_collinear_collapses(start: Point, point: Point, end: Point, tolerance: u64)
    requires
        perpendicular(point, start, end).rank() == 0,
    ensures
        simplified(grid_gauge(tolerance), seq![start, point, end]) == seq![start, end],
{
    let gauge = grid_gauge(tolerance);
    let line = seq![start, point, end];
    lemma_farthest_interior(gauge, line);
    let base = match perpendicular(point, start, end) {
        Distance::ToPoint { squared } => 1u128,
        Distance::ToLine { area, base_squared } => base_squared,
    };
    assert(0 * 0 <= tolerance * tolerance * base) by (nonlinear_arith);
    assert(!gauge(line[1], line.first(), line.last()).beyond);
}

/// On the grid, a point that lies no nearer to a chord than one that is
/// beyond the tolerance is beyond it too.
pub proof fn lemma_grid_gauge_steady(tolerance: u64)
    ensures
        steady(grid_gauge(tolerance)),
{
    let gauge = grid_gauge(tolerance);
    assert forall|p: Point, q: Point, s: Point, e: Point|
        (#[trigger] gauge(p, s, e)).beyond && gauge(p, s, e).deviation <= (#[trigger] gauge(
            q,
            s,
            e,
        )).deviation implies gauge(q, s, e).beyond by {
        let near = perpendicular(p, s, e).rank();
        let far = perpendicular(q, s, e).rank();
        assert(near * near <= far * far) by (nonlinear_arith)
            requires
                0 <= near <= far,
        ;
    }
}

/// Every point that `rdp` drops lies no farther than the tolerance from
/// the chord between the nearest points that stay, before it and after it.
pub proof fn lemma_dropped_within_tolerance_on_grid(line: Seq<Point>, tolerance: u64)
    ensures
        within(grid_gauge(tolerance), line, places(grid_gauge(tolerance), line)),
{
    lemma_grid_gauge_steady(tolerance);
    lemma_dropped_within_tolerance(grid_gauge(tolerance), line);
}

/// Under a larger tolerance no more points of a polyline stay.
pub proof fn lemma_tolerance_monotonic(line: Seq<Point>, smaller: u64, larger: u64)
    requires
        smaller <= larger,
    ensures
        simplified(grid_gauge(smaller), line).len() >= simplified(grid_gauge(larger), line).len(),
{
    let strict = grid_gauge(smaller);
    let loose = grid_gauge(larger);
    assert forall|p: Point, s: Point, e: Point|
        {
            &&& (#[trigger] strict(p, s, e)).deviation == loose(p, s, e).deviation
            &&& loose(p, s, e).beyond ==> strict(p, s, e).beyond
        } by {
        if loose(p, s, e).beyond {
            lemma_beyond_smaller(perpendicular(p, s, e), smaller, larger);
        }
    }
    lemma_simplified_monotonic(strict, loose, line);
}

} // verus!
