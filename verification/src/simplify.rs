//! The simplifier: which points of a polyline stay.
use crate::outline::{
    deviations, farthest, first_max, lemma_farthest_interior, lemma_simplified_ends, simplified,
    Gauge, Reading,
};
use vstd::prelude::*;

verus! {

/// The positions `lo`, `lo + 1`, .., `hi - 1`.
pub open spec fn positions(lo: int, hi: int) -> Seq<usize> {
    Seq::new((hi - lo) as nat, |i: int| (lo + i) as usize)
}

/// `gauge` can be asked about every point between the ends of every chord
/// of a polyline of `len` points.
pub open spec fn answers<F: Fn(usize, usize, usize) -> Reading>(gauge: F, len: int) -> bool {
    forall|p: usize, s: usize, e: usize| s < p < e < len ==> gauge.requires((p, s, e))
}

/// Whatever `gauge` reports about a polyline of `len` points is what
/// `measure` says. The arguments are positions: the point's, then those of
/// the chord's start and end.
pub open spec fn reports<F: Fn(usize, usize, usize) -> Reading>(
    gauge: F,
    measure: Gauge<usize>,
    len: int,
) -> bool {
    forall|p: usize, s: usize, e: usize, r: Reading|
        s < p < e < len && gauge.ensures((p, s, e), r) ==> r == measure(p, s, e)
}

/// `kept` lists positions from `lo` to `hi`, both included, in rising
/// order.
pub open spec fn rises(kept: Seq<usize>, lo: int, hi: int) -> bool {
    &&& kept.len() >= 2
    &&& kept.first() == lo
    &&& kept.last() == hi
    &&& forall|i: int, j: int| 0 <= i < j < kept.len() ==> kept[i] < kept[j]
}

/// Of the points strictly between `lo` and `hi`, the one at `at` is the
/// first that deviates most by `m`, and `best` is its reading.
pub open spec fn found_is(m: Gauge<usize>, lo: usize, hi: usize, at: usize, best: Reading) -> bool {
    &&& at == lo + farthest(m, positions(lo as int, hi + 1))
    &&& best == m(at, lo, hi)
}

/// Finds the first point strictly between `lo` and `hi` that deviates most
/// from the chord between them, and its reading.
pub fn farthest_between<F: Fn(usize, usize, usize) -> Reading>(
    gauge: &F,
    lo: usize,
    hi: usize,
) -> (found: (
    usize,
    Reading,
))
    requires
        lo + 1 < hi,
        answers(*gauge, hi + 1),
    ensures
        lo < found.0 < hi,
        forall|m: Gauge<usize>| #[trigger]
            reports(*gauge, m, hi + 1) ==> found_is(m, lo, hi, found.0, found.1),
{
    let ghost line = positions(lo as int, hi + 1);
    let mut at: usize = lo + 1;
    let mut best: Reading = gauge(at, lo, hi);
    let ghost mut seen: Seq<Reading> = seq![best];
    let mut i: usize = lo + 2;
    while i < hi
        invariant
            lo + 1 < hi,
            lo + 2 <= i <= hi,
            answers(*gauge, hi + 1),
            seen.len() == i - lo - 1,
            forall|k: int|
                0 <= k < seen.len() ==> gauge.ensures(((lo + 1 + k) as usize, lo, hi), #[trigger] seen[k]),
            at == lo + 1 + first_max(seen.map_values(|r: Reading| r.deviation)),
            lo < at < i,
            best == seen[at - lo - 1],
        decreases hi - i,
    {
        let next = gauge(i, lo, hi);
        proof {
            let before = seen.map_values(|r: Reading| r.deviation);
            seen = seen.push(next);
            let after = seen.map_values(|r: Reading| r.deviation);
            assert(after.drop_last() == before);
        }
        if next.deviation > best.deviation {
            at = i;
            best = next;
        }
        i = i + 1;
    }
    proof {
        assert forall|m: Gauge<usize>| #[trigger] reports(*gauge, m, hi + 1) implies found_is(
            m,
            lo,
            hi,
            at,
            best,
        ) by {
            assert forall|k: int| 0 <= k < seen.len() implies #[trigger] seen[k] == m(
                (lo + 1 + k) as usize,
                lo,
                hi,
            ) by {
                assert(gauge.ensures(((lo + 1 + k) as usize, lo, hi), seen[k]));
            }
            assert(deviations(m, line) == seen.map_values(|r: Reading| r.deviation));
        }
    }
    (at, best)
}

/// A run of consecutive positions, cut out of a run of consecutive
/// positions.
proof fn lemma_positions_subrange(lo: int, hi: int, from: int, to: int)
    requires
        0 <= lo,
        0 <= from <= to <= hi - lo,
    ensures
        positions(lo, hi).subrange(from, to) == positions(lo + from, lo + to),
{
}

/// What remains of the points from `lo` to `hi`, but for `lo` itself.
spec fn stretch(m: Gauge<usize>, lo: int, hi: int) -> Seq<usize> {
    simplified(m, positions(lo, hi + 1)).drop_first()
}

/// What remains of the points after `lo`, where the line from `lo` on is
/// parted at the positions in `ahead`, the nearest of which comes last.
#[verifier::opaque]
spec fn pending(m: Gauge<usize>, lo: int, ahead: Seq<usize>) -> Seq<usize>
    decreases ahead.len(),
{
    if ahead.len() == 0 {
        Seq::empty()
    } else {
        stretch(m, lo, ahead.last() as int) + pending(m, ahead.last() as int, ahead.drop_last())
    }
}

/// The positions in `ahead` fall from `top`, which is the first of them,
/// towards `lo`, which they stay above.
#[verifier::opaque]
spec fn falls(ahead: Seq<usize>, lo: int, top: int) -> bool {
    &&& lo <= top
    &&& ahead.len() > 0 ==> ahead.first() == top
    &&& ahead.len() == 0 ==> lo == top
    &&& forall|i: int| 0 <= i < ahead.len() ==> lo < #[trigger] ahead[i] <= top
    &&& forall|i: int, j: int| 0 <= i < j < ahead.len() ==> ahead[i] > ahead[j]
}

/// The positions in `kept` climb from the first point to `lo`.
#[verifier::opaque]
spec fn climbs(kept: Seq<usize>, lo: int) -> bool {
    &&& kept.len() >= 1
    &&& kept.first() == 0
    &&& kept.last() == lo
    &&& forall|i: int, j: int| 0 <= i < j < kept.len() ==> kept[i] < kept[j]
}

/// Positions that fall from `top` towards `lo` are no more than lie
/// between the two.
proof fn lemma_falls_count(ahead: Seq<usize>, lo: int, top: int)
    requires
        falls(ahead, lo, top),
    ensures
        ahead.len() <= top - lo,
    decreases ahead.len(),
{
    reveal(falls);
    if ahead.len() > 1 {
        let rest = ahead.drop_last();
        assert(falls(rest, ahead.last() as int, top)) by {
            assert forall|i: int| 0 <= i < rest.len() implies ahead.last() < #[trigger] rest[i]
                <= top by {
                assert(rest[i] == ahead[i]);
            }
        }
        lemma_falls_count(rest, ahead.last() as int, top);
    }
}

/// The nearest of the positions ahead lies above `lo`, and the others fall
/// towards it.
proof fn lemma_falls_nearest(ahead: Seq<usize>, lo: int, top: int)
    requires
        falls(ahead, lo, top),
        ahead.len() > 0,
    ensures
        lo < ahead.last() <= top,
        falls(ahead.drop_last(), ahead.last() as int, top),
{
    reveal(falls);
    let rest = ahead.drop_last();
    assert forall|i: int| 0 <= i < rest.len() implies ahead.last() < #[trigger] rest[i] <= top by {
        assert(rest[i] == ahead[i]);
    }
}

/// A position between `lo` and the nearest of the positions ahead becomes
/// the nearest.
proof fn lemma_falls_nearer(ahead: Seq<usize>, lo: int, top: int, cut: usize)
    requires
        falls(ahead, lo, top),
        ahead.len() > 0,
        lo < cut < ahead.last(),
    ensures
        falls(ahead.push(cut), lo, top),
{
    reveal(falls);
}

/// None but the first point is kept at the start.
proof fn lemma_climbs_start()
    ensures
        climbs(seq![0usize], 0),
{
    reveal(climbs);
}

/// A position above all that are kept is kept next.
proof fn lemma_climbs_on(kept: Seq<usize>, lo: int, hi: usize)
    requires
        climbs(kept, lo),
        lo < hi,
    ensures
        climbs(kept.push(hi), hi as int),
{
    reveal(climbs);
}

/// What climbs to a position above the first rises from the first to it.
proof fn lemma_climbs_rises(kept: Seq<usize>, hi: int)
    requires
        climbs(kept, hi),
        0 < hi,
    ensures
        rises(kept, 0, hi),
{
    reveal(climbs);
}

/// With the last point alone ahead, everything but the first point is
/// pending.
proof fn lemma_pending_start(m: Gauge<usize>, last: usize)
    requires
        last >= 1,
    ensures
        simplified(m, positions(0, last + 1)) == seq![0usize] + pending(m, 0, seq![last]),
{
    reveal_with_fuel(pending, 2);
    let whole = simplified(m, positions(0, last + 1));
    let ahead = seq![last];
    lemma_simplified_ends(m, positions(0, last + 1));
    assert(ahead.drop_last().len() == 0);
    assert(pending(m, 0, ahead) == stretch(m, 0, last as int) + Seq::<usize>::empty());
    assert(pending(m, 0, ahead) == whole.drop_first());
    assert(seq![0usize] + whole.drop_first() == whole);
}

/// With nothing ahead, nothing is pending.
proof fn lemma_pending_end(m: Gauge<usize>, lo: int)
    ensures
        pending(m, lo, Seq::empty()) == Seq::<usize>::empty(),
{
    reveal_with_fuel(pending, 1);
}

/// Where the nearest stretch is cut, as much is pending with the cut
/// ahead as without it.
proof fn lemma_pending_cut(m: Gauge<usize>, lo: int, cut: int, ahead: Seq<usize>)
    requires
        ahead.len() > 0,
        0 <= lo < cut < ahead.last(),
        found_is(m, lo as usize, ahead.last(), cut as usize, m(cut as usize, lo as usize, ahead.last())),
        m(cut as usize, lo as usize, ahead.last()).beyond,
    ensures
        pending(m, lo, ahead.push(cut as usize)) == pending(m, lo, ahead),
{
    reveal_with_fuel(pending, 2);
    let hi = ahead.last() as int;
    let nearer = ahead.push(cut as usize);
    let rest = pending(m, hi, ahead.drop_last());
    assert(nearer.drop_last() == ahead);
    // The stretch remains as what remains of its two parts.
    let line = positions(lo, hi + 1);
    lemma_positions_subrange(lo, hi + 1, 0, cut - lo + 1);
    lemma_positions_subrange(lo, hi + 1, cut - lo, hi + 1 - lo);
    let left = simplified(m, positions(lo, cut + 1));
    let right = simplified(m, positions(cut, hi + 1));
    lemma_simplified_ends(m, positions(lo, cut + 1));
    lemma_simplified_ends(m, positions(cut, hi + 1));
    assert(simplified(m, line) == left.drop_last() + right);
    assert((left.drop_last() + right).drop_first() == left.drop_first() + right.drop_first());
    assert(stretch(m, lo, hi) == stretch(m, lo, cut) + stretch(m, cut, hi));
    assert(pending(m, lo, nearer) == stretch(m, lo, cut) + (stretch(m, cut, hi) + rest));
    assert(pending(m, lo, ahead) == stretch(m, lo, hi) + rest);
}

/// Where the nearest stretch is not cut, its end is the first of what is
/// pending.
proof fn lemma_pending_whole(m: Gauge<usize>, lo: int, at: usize, ahead: Seq<usize>)
    requires
        ahead.len() > 0,
        0 <= lo < ahead.last(),
        ahead.last() - lo >= 2 ==> found_is(
            m,
            lo as usize,
            ahead.last(),
            at,
            m(at, lo as usize, ahead.last()),
        ) && !m(at, lo as usize, ahead.last()).beyond,
    ensures
        pending(m, lo, ahead) == seq![ahead.last()] + pending(
            m,
            ahead.last() as int,
            ahead.drop_last(),
        ),
{
    reveal_with_fuel(pending, 1);
    let hi = ahead.last() as int;
    let line = positions(lo, hi + 1);
    if hi - lo >= 2 {
        lemma_farthest_interior(m, line);
        assert(simplified(m, line) == seq![lo as usize, hi as usize]);
    } else {
        assert(simplified(m, line) == line);
    }
    assert(line.last() == hi as usize);
    assert(simplified(m, line).drop_first() == seq![hi as usize]);
}

/// What a gauge reports about a line it reports about every shorter one.
proof fn lemma_reports_shorter<F: Fn(usize, usize, usize) -> Reading>(
    gauge: F,
    m: Gauge<usize>,
    len: int,
    shorter: int,
)
    requires
        reports(gauge, m, len),
        shorter <= len,
    ensures
        reports(gauge, m, shorter),
{
}

/// Simplifies a polyline of `len` points that only `gauge` knows: the
/// result holds the positions of the points that stay, in rising order.
///
/// `gauge` is asked about a point and a chord by their positions: the
/// point's first, then those of the chord's start and end. The positions
/// that come back are those of the simplified line, by every measure that
/// the gauge reports.
pub fn simplify_by<F: Fn(usize, usize, usize) -> Reading>(len: usize, gauge: F) -> (kept: Vec<usize>)
    requires
        answers(gauge, len as int),
    ensures
        len < 2 ==> kept@ == positions(0, len as int),
        len >= 2 ==> rises(kept@, 0, len - 1),
        forall|m: Gauge<usize>| #[trigger]
            reports(gauge, m, len as int) ==> kept@ == simplified(m, positions(0, len as int)),
{
    let mut kept: Vec<usize> = Vec::new();
    if len >= 1 {
        kept.push(0);
    }
    if len < 2 {
        proof {
            let line = positions(0, len as int);
            assert(kept@ == line);
            assert forall|m: Gauge<usize>| #[trigger] reports(gauge, m, len as int) implies kept@
                == simplified(m, line) by {
                lemma_simplified_ends(m, line);
            }
        }
        return kept;
    }
    // The ends of the stretches that are still to be looked at: the nearest
    // last, each stretch starting where the one before it ends.
    let mut ahead: Vec<usize> = Vec::new();
    ahead.push(len - 1);
    let mut lo: usize = 0;
    proof {
        assert(kept@ == seq![0usize]);
        assert(ahead@ == seq![(len - 1) as usize]);
        assert(positions(0, (len - 1) as usize + 1) == positions(0, len as int));
        lemma_climbs_start();
        assert(falls(ahead@, 0, len - 1)) by {
            reveal(falls);
        }
        assert forall|m: Gauge<usize>| #[trigger] reports(gauge, m, len as int) implies simplified(
            m,
            positions(0, len as int),
        ) == kept@ + pending(m, lo as int, ahead@) by {
            lemma_pending_start(m, (len - 1) as usize);
        }
    }
    while ahead.len() > 0
        invariant
            len >= 2,
            answers(gauge, len as int),
            climbs(kept@, lo as int),
            falls(ahead@, lo as int, len - 1),
            forall|m: Gauge<usize>| #[trigger]
                reports(gauge, m, len as int) ==> simplified(m, positions(0, len as int)) == kept@
                    + pending(m, lo as int, ahead@),
        decreases 2 * (len - 1 - lo) - ahead@.len(),
    {
        let hi: usize = ahead[ahead.len() - 1];
        let ghost before = kept@;
        let ghost waiting = ahead@;
        proof {
            lemma_falls_nearest(waiting, lo as int, len - 1);
            lemma_falls_count(waiting, lo as int, len - 1);
        }
        let (cut, reading) = if hi - lo >= 2 {
            farthest_between(&gauge, lo, hi)
        } else {
            (hi, Reading { deviation: 0, beyond: false })
        };
        if reading.beyond {
            ahead.push(cut);
            proof {
                lemma_falls_nearer(waiting, lo as int, len - 1, cut);
                lemma_falls_count(ahead@, lo as int, len - 1);
                assert forall|m: Gauge<usize>| #[trigger]
                    reports(gauge, m, len as int) implies simplified(m, positions(0, len as int))
                    == kept@ + pending(m, lo as int, ahead@) by {
                    lemma_reports_shorter(gauge, m, len as int, hi + 1);
                    lemma_pending_cut(m, lo as int, cut as int, waiting);
                }
            }
        } else {
            ahead.pop();
            kept.push(hi);
            proof {
                assert(ahead@ == waiting.drop_last());
                lemma_falls_count(ahead@, hi as int, len - 1);
                lemma_climbs_on(before, lo as int, hi);
                assert forall|m: Gauge<usize>| #[trigger]
                    reports(gauge, m, len as int) implies simplified(m, positions(0, len as int))
                    == kept@ + pending(m, hi as int, ahead@) by {
                    lemma_reports_shorter(gauge, m, len as int, hi + 1);
                    lemma_pending_whole(m, lo as int, cut, waiting);
                    assert(before + (seq![hi] + pending(m, hi as int, ahead@)) == before.push(hi)
                        + pending(m, hi as int, ahead@));
                }
            }
            lo = hi;
        }
    }
    proof {
        assert(lo == len - 1) by {
            reveal(falls);
        }
        lemma_climbs_rises(kept@, len - 1);
        assert(ahead@ == Seq::<usize>::empty());
        assert forall|m: Gauge<usize>| #[trigger] reports(gauge, m, len as int) implies kept@
            == simplified(m, positions(0, len as int)) by {
            lemma_pending_end(m, lo as int);
            assert(kept@ + Seq::<usize>::empty() == kept@);
        }
    }
    kept
}

} // verus!
