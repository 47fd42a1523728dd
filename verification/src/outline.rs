//! The mathematical model of the simplification.
//!
//! The model is independent of how a deviation is measured: it takes the
//! measure as a function from a point and the two ends of a chord to a
//! [`Reading`].
use vstd::prelude::*;

verus! {

/// What a gauge reports of one point against one chord.
#[derive(Clone, Copy, Debug, PartialEq, Eq, Structural)]
pub struct Reading {
    /// How far the point lies from the chord, on any scale that orders the
    /// points measured against one chord as their distances do.
    pub deviation: u128,
    /// Whether that distance is more than the tolerance.
    pub beyond: bool,
}

/// A measure of points against chords: the arguments are the point, the
/// start of the chord and its end.
pub type Gauge<T> = spec_fn(T, T, T) -> Reading;

/// The position of the first largest entry of `s`; 0 for an empty sequence.
pub open spec fn first_max(s: Seq<u128>) -> int
    decreases s.len(),
{
    if s.len() <= 1 {
        0
    } else {
        let j = first_max(s.drop_last());
        if s.last() > s[j] {
            s.len() - 1
        } else {
            j
        }
    }
}

/// `j` is the first position of `s` that holds its largest entry.
pub open spec fn is_first_max(s: Seq<u128>, j: int) -> bool {
    &&& 0 <= j < s.len()
    &&& forall|i: int| 0 <= i < j ==> s[i] < s[j]
    &&& forall|i: int| j <= i < s.len() ==> s[i] <= s[j]
}

/// `first_max` finds the first largest entry, and nothing else is one.
pub proof fn lemma_first_max(s: Seq<u128>)
    requires
        s.len() > 0,
    ensures
        is_first_max(s, first_max(s)),
        forall|j: int| is_first_max(s, j) ==> j == first_max(s),
    decreases s.len(),
{
    let m = first_max(s);
    if s.len() > 1 {
        let t = s.drop_last();
        lemma_first_max(t);
        assert(forall|i: int| 0 <= i < t.len() ==> t[i] == s[i]);
    }
    assert(is_first_max(s, m));
    assert forall|j: int| is_first_max(s, j) implies j == m by {
        if j < m {
            assert(s[j] < s[m]);
        } else if m < j {
            assert(s[m] < s[j]);
        }
    }
}

/// The deviations of the interior points of `line` from the chord between
/// its first and its last point, in order.
pub open spec fn deviations<T>(gauge: Gauge<T>, line: Seq<T>) -> Seq<u128> {
    Seq::new(
        (line.len() - 2) as nat,
        |i: int| gauge(line[i + 1], line.first(), line.last()).deviation,
    )
}

/// The index in `line` of the first interior point that deviates most from
/// the chord between the first and the last point.
pub open spec fn farthest<T>(gauge: Gauge<T>, line: Seq<T>) -> int {
    1 + first_max(deviations(gauge, line))
}

/// `farthest` is the index of an interior point.
pub proof fn lemma_farthest_interior<T>(gauge: Gauge<T>, line: Seq<T>)
    requires
        line.len() >= 3,
    ensures
        0 < farthest(gauge, line) < line.len() - 1,
{
    lemma_first_max(deviations(gauge, line));
}

/// The simplified polyline.
///
/// A line of fewer than three points is kept as it is. A longer one is cut
/// at its farthest interior point when that point is beyond the tolerance:
/// both parts are simplified, and joined so that the cut point stands once.
/// Otherwise only its two ends remain.
pub open spec fn simplified<T>(gauge: Gauge<T>, line: Seq<T>) -> Seq<T>
    decreases line.len(),
    via simplified_decreases::<T>
{
    if line.len() < 3 {
        line
    } else {
        let cut = farthest(gauge, line);
        if gauge(line[cut], line.first(), line.last()).beyond {
            simplified(gauge, line.subrange(0, cut + 1)).drop_last() + simplified(
                gauge,
                line.subrange(cut, line.len() as int),
            )
        } else {
            seq![line.first(), line.last()]
        }
    }
}

#[via_fn]
proof fn simplified_decreases<T>(gauge: Gauge<T>, line: Seq<T>) {
    if line.len() >= 3 {
        lemma_farthest_interior(gauge, line);
    }
}

/// The places in `line` of the points that stay when it is simplified, in
/// rising order.
pub open spec fn places<T>(gauge: Gauge<T>, line: Seq<T>) -> Seq<int>
    decreases line.len(),
    via places_decreases::<T>
{
    if line.len() < 3 {
        Seq::new(line.len(), |i: int| i)
    } else {
        let cut = farthest(gauge, line);
        if gauge(line[cut], line.first(), line.last()).beyond {
            places(gauge, line.subrange(0, cut + 1)).drop_last() + places(
                gauge,
                line.subrange(cut, line.len() as int),
            ).map_values(|k: int| k + cut)
        } else {
            seq![0, line.len() - 1]
        }
    }
}

#[via_fn]
proof fn places_decreases<T>(gauge: Gauge<T>, line: Seq<T>) {
    if line.len() >= 3 {
        lemma_farthest_interior(gauge, line);
    }
}

/// A simplified line keeps the ends of the line, and is never longer than
/// the line itself.
pub proof fn lemma_simplified_ends<T>(gauge: Gauge<T>, line: Seq<T>)
    ensures
        simplified(gauge, line).len() <= line.len(),
        line.len() < 3 ==> simplified(gauge, line) == line,
        line.len() >= 2 ==> {
            &&& simplified(gauge, line).len() >= 2
            &&& simplified(gauge, line).first() == line.first()
            &&& simplified(gauge, line).last() == line.last()
        },
    decreases line.len(),
{
    if line.len() >= 3 {
        lemma_farthest_interior(gauge, line);
        let cut = farthest(gauge, line);
        lemma_simplified_ends(gauge, line.subrange(0, cut + 1));
        lemma_simplified_ends(gauge, line.subrange(cut, line.len() as int));
    }
}

/// The gauge that measures labels by what `gauge` says of the points that
/// they stand for.
pub open spec fn through<A, B>(gauge: Gauge<B>, label: spec_fn(A) -> B) -> Gauge<A> {
    |p: A, s: A, e: A| gauge(label(p), label(s), label(e))
}

/// Simplifying a line of labels, by what the gauge says of the points that
/// they stand for, keeps the labels of the points that simplifying the
/// line of points keeps.
pub proof fn lemma_simplified_through<A, B>(gauge: Gauge<B>, label: spec_fn(A) -> B, line: Seq<A>)
    ensures
        simplified(through(gauge, label), line).map_values(label) == simplified(
            gauge,
            line.map_values(label),
        ),
    decreases line.len(),
{
    let lifted = through(gauge, label);
    let points = line.map_values(label);
    if line.len() >= 3 {
        assert(deviations(lifted, line) == deviations(gauge, points));
        lemma_farthest_interior(gauge, points);
        let cut = farthest(gauge, points);
        let left = line.subrange(0, cut + 1);
        let right = line.subrange(cut, line.len() as int);
        lemma_simplified_through(gauge, label, left);
        lemma_simplified_through(gauge, label, right);
        lemma_simplified_ends(lifted, left);
        assert(left.map_values(label) == points.subrange(0, cut + 1));
        assert(right.map_values(label) == points.subrange(cut, line.len() as int));
        assert((simplified(lifted, left).drop_last() + simplified(lifted, right)).map_values(label)
            == simplified(lifted, left).map_values(label).drop_last() + simplified(
            lifted,
            right,
        ).map_values(label));
        assert(seq![line.first(), line.last()].map_values(label) == seq![
            points.first(),
            points.last(),
        ]);
    }
}

} // verus!
