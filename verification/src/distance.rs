//! Points on the integer grid, and exact distances between them.
//!
//! A distance is in general irrational, so none is rounded here: it is
//! held by the whole numbers that determine it, and compared exactly.
use crate::wide::Wide;
use vstd::prelude::*;

verus! {

/// A point of the plane with whole coordinates.
#[derive(Clone, Copy, Debug, PartialEq, Eq, Structural)]
pub struct Point {
    /// The coordinate along the first axis.
    pub x: i32,
    /// The coordinate along the second axis.
    pub y: i32,
}

/// A distance, which is never negative.
///
/// Two values are equal when they hold the same numbers. One distance can
/// be held by different numbers: to compare distances, ask each whether it
/// [`exceeds`](Distance::exceeds) a tolerance.
#[derive(Clone, Copy, Debug, PartialEq, Eq, Structural)]
pub enum Distance {
    /// The distance between two points: the square root of `squared`.
    ToPoint { squared: u128 },
    /// The distance of a point from the line through two others: the height
    /// of a parallelogram of the given area over a base whose length is the
    /// square root of `base_squared`.
    ToLine { area: u128, base_squared: u128 },
}

/// The part of `n` that is left when its sign is dropped.
pub open spec fn magnitude(n: int) -> int {
    if n < 0 {
        -n
    } else {
        n
    }
}

/// The square of the distance from `a` to `b`.
pub open spec fn squared_length(a: Point, b: Point) -> int {
    (a.x - b.x) * (a.x - b.x) + (a.y - b.y) * (a.y - b.y)
}

/// The cross product of the step from `start` to `end` and the step from
/// `start` to `point`: by its magnitude the area of the parallelogram that
/// the two steps span, and zero just when the three points lie on one line.
pub open spec fn cross(point: Point, start: Point, end: Point) -> int {
    (end.x - start.x) * (point.y - start.y) - (end.y - start.y) * (point.x - start.x)
}

/// The distance from `a` to `b`.
pub open spec fn straight_line(a: Point, b: Point) -> Distance {
    Distance::ToPoint { squared: squared_length(a, b) as u128 }
}

/// The distance of `point` from the line through `start` and `end`, or
/// from `start` where the two are one point.
pub open spec fn perpendicular(point: Point, start: Point, end: Point) -> Distance {
    if start == end {
        straight_line(point, start)
    } else {
        Distance::ToLine {
            area: magnitude(cross(point, start, end)) as u128,
            base_squared: squared_length(start, end) as u128,
        }
    }
}

impl Distance {
    /// Whether the distance is more than `tolerance`: the two are compared
    /// by their squares.
    pub open spec fn is_beyond(self, tolerance: u64) -> bool {
        match self {
            Distance::ToPoint { squared } => squared > tolerance * tolerance,
            Distance::ToLine { area, base_squared } => area * area > tolerance * tolerance
                * base_squared,
        }
    }

    /// A number that orders distances of one kind, taken over one base, as
    /// the distances themselves are ordered.
    pub open spec fn rank(self) -> u128 {
        match self {
            Distance::ToPoint { squared } => squared,
            Distance::ToLine { area, base_squared } => area,
        }
    }

    /// Whether the distance is more than `tolerance`.
    pub fn exceeds(&self, tolerance: u64) -> (more: bool)
        ensures
            more == self.is_beyond(tolerance),
    {
        assert(tolerance * tolerance <= u64::MAX * u64::MAX) by (nonlinear_arith);
        let limit: u128 = (tolerance as u128) * (tolerance as u128);
        match self {
            Distance::ToPoint { squared } => *squared > limit,
            Distance::ToLine { area, base_squared } => {
                let left = Wide::product(*area, *area);
                let right = Wide::product(limit, *base_squared);
                left.exceeds(&right)
            },
        }
    }

    /// Whether the distance is zero.
    pub fn is_zero(&self) -> (zero: bool)
        ensures
            zero == (self.rank() == 0),
    {
        match self {
            Distance::ToPoint { squared } => *squared == 0,
            Distance::ToLine { area, base_squared } => *area == 0,
        }
    }
}

/// The product of two differences of coordinates fits in 64 bits.
proof fn lemma_step_product(a: int, b: int)
    by (nonlinear_arith)
    requires
        -0xffff_ffff <= a <= 0xffff_ffff,
        -0xffff_ffff <= b <= 0xffff_ffff,
    ensures
        -0xffff_fffe_0000_0001 <= a * b <= 0xffff_fffe_0000_0001,
        0 <= a * a,
{
}

/// A number and its opposite have the same square.
proof fn lemma_square_of_opposite(a: int)
    by (nonlinear_arith)
    ensures
        a * a == (-a) * (-a),
{
}

/// The distance between two points.
pub fn straight_line_distance(a: &Point, b: &Point) -> (d: Distance)
    ensures
        d == straight_line(*a, *b),
{
    let dx: i128 = a.x as i128 - b.x as i128;
    let dy: i128 = a.y as i128 - b.y as i128;
    proof {
        lemma_step_product(dx as int, dx as int);
        lemma_step_product(dy as int, dy as int);
    }
    let squared: i128 = dx * dx + dy * dy;
    Distance::ToPoint { squared: squared as u128 }
}

/// The distance of `point` from the line through `start` and `end`.
///
/// Where `start` and `end` are the same point they give no line, and the
/// distance is that from `point` to `start`.
pub fn perpendicular_distance(point: &Point, start: &Point, end: &Point) -> (d: Distance)
    ensures
        d == perpendicular(*point, *start, *end),
{
    if start.x == end.x && start.y == end.y {
        return straight_line_distance(point, start);
    }
    let dx: i128 = end.x as i128 - start.x as i128;
    let dy: i128 = end.y as i128 - start.y as i128;
    let px: i128 = point.x as i128 - start.x as i128;
    let py: i128 = point.y as i128 - start.y as i128;
    proof {
        lemma_step_product(dx as int, py as int);
        lemma_step_product(dy as int, px as int);
        lemma_step_product(dx as int, dx as int);
        lemma_step_product(dy as int, dy as int);
    }
    let product: i128 = dx * py - dy * px;
    let area: i128 = if product < 0 {
        -product
    } else {
        product
    };
    let base_squared: i128 = dx * dx + dy * dy;
    proof {
        lemma_square_of_opposite(dx as int);
        lemma_square_of_opposite(dy as int);
    }
    Distance::ToLine { area: area as u128, base_squared: base_squared as u128 }
}

/// The numbers that a distance is held by are those of the geometry, whole
/// and in range: a square that is not negative, or an area that is not
/// negative over a base that is not zero. So no distance is below zero.
pub proof fn lemma_perpendicular_not_negative(point: Point, start: Point, end: Point)
    ensures
        match perpendicular(point, start, end) {
            Distance::ToPoint { squared } => {
                &&& start == end
                &&& squared == squared_length(point, start)
                &&& squared_length(point, start) >= 0
            },
            Distance::ToLine { area, base_squared } => {
                &&& start != end
                &&& area == magnitude(cross(point, start, end))
                &&& base_squared == squared_length(start, end)
                &&& squared_length(start, end) > 0
            },
        },
{
    lemma_step_product(point.x - start.x, point.x - start.x);
    lemma_step_product(point.y - start.y, point.y - start.y);
    lemma_step_product(start.x - end.x, start.x - end.x);
    lemma_step_product(start.y - end.y, start.y - end.y);
    lemma_step_product(end.x - start.x, point.y - start.y);
    lemma_step_product(end.y - start.y, point.x - start.x);
    lemma_zero_square(start.x - end.x);
    lemma_zero_square(start.y - end.y);
}

/// Only zero has the square zero.
proof fn lemma_zero_square(a: int)
    by (nonlinear_arith)
    ensures
        a * a == 0 <==> a == 0,
        a * a >= 0,
{
}

/// The distance from a point to itself is zero.
pub proof fn lemma_straight_line_to_self(a: Point)
    ensures
        straight_line(a, a) == (Distance::ToPoint { squared: 0 }),
{
}

/// The distance between two points is zero only where they are one point.
pub proof fn lemma_straight_line_zero(a: Point, b: Point)
    ensures
        straight_line(a, b).rank() == 0 <==> a == b,
{
    lemma_perpendicular_not_negative(a, b, b);
    lemma_zero_square(a.x - b.x);
    lemma_zero_square(a.y - b.y);
}

/// The distance from `a` to `b` is the distance from `b` to `a`.
pub proof fn lemma_straight_line_symmetric(a: Point, b: Point)
    ensures
        straight_line(a, b) == straight_line(b, a),
{
    lemma_square_of_opposite(a.x - b.x);
    lemma_square_of_opposite(a.y - b.y);
}

/// The distance of a point from a line does not depend on the direction in
/// which the line is taken.
pub proof fn lemma_perpendicular_either_way(point: Point, start: Point, end: Point)
    ensures
        perpendicular(point, start, end) == perpendicular(point, end, start),
{
    lemma_square_of_opposite(start.x - end.x);
    lemma_square_of_opposite(start.y - end.y);
    lemma_cross_reversed(
        point.x as int,
        point.y as int,
        start.x as int,
        start.y as int,
        end.x as int,
        end.y as int,
    );
}

/// Taking the line the other way round turns the sign of the cross
/// product.
proof fn lemma_cross_reversed(px: int, py: int, sx: int, sy: int, ex: int, ey: int)
    by (nonlinear_arith)
    ensures
        (sx - ex) * (py - ey) - (sy - ey) * (px - ex) == -((ex - sx) * (py - sy) - (ey - sy) * (px
            - sx)),
{
}

/// A point is at distance zero from a line just when it lies on the line.
pub proof fn lemma_perpendicular_zero(point: Point, start: Point, end: Point)
    ensures
        perpendicular(point, start, end).rank() == 0 <==> if start == end {
            point == start
        } else {
            cross(point, start, end) == 0
        },
{
    lemma_perpendicular_not_negative(point, start, end);
    lemma_straight_line_zero(point, start);
}

/// What is beyond a tolerance is beyond every smaller one.
pub proof fn lemma_beyond_smaller(distance: Distance, smaller: u64, larger: u64)
    requires
        smaller <= larger,
        distance.is_beyond(larger),
    ensures
        distance.is_beyond(smaller),
{
    assert(smaller * smaller <= larger * larger) by (nonlinear_arith)
        requires
            smaller <= larger,
    ;
    match distance {
        Distance::ToPoint { squared } => {},
        Distance::ToLine { area, base_squared } => {
            assert(smaller * smaller * base_squared <= larger * larger * base_squared)
                by (nonlinear_arith)
                requires
                    smaller * smaller <= larger * larger,
                    base_squared >= 0,
            ;
        },
    }
}

} // verus!
