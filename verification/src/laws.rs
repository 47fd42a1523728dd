//! What holds of every simplified line, whatever the gauge.
use crate::outline::{
    deviations, farthest, is_first_max, lemma_farthest_interior, lemma_first_max,
    lemma_simplified_ends, places, simplified, Gauge,
};
use vstd::prelude::*;

verus! {

/// `part` is cut out of `whole` without a change of order: its entry `i`
/// is the entry `at[i]` of `whole`, and `at` rises.
pub open spec fn embeds<T>(part: Seq<T>, whole: Seq<T>, at: Seq<int>) -> bool {
    &&& at.len() == part.len()
    &&& forall|i: int| 0 <= i < at.len() ==> 0 <= #[trigger] at[i] < whole.len()
    &&& forall|i: int| 0 <= i < at.len() ==> #[trigger] part[i] == whole[at[i]]
    &&& forall|i: int, j: int| 0 <= i < j < at.len() ==> at[i] < at[j]
}

/// A simplified line is a subsequence of the line, in the line's order:
/// its points are those at the `places` of the line. Of a line of two
/// points or more, the first and the last stay.
pub proof fn lemma_simplified_subsequence<T>(gauge: Gauge<T>, line: Seq<T>)
    ensures
        embeds(simplified(gauge, line), line, places(gauge, line)),
        line.len() >= 2 ==> places(gauge, line).first() == 0 && places(gauge, line).last()
            == line.len() - 1,
    decreases line.len(),
{
    if line.len() >= 3 {
        let cut = farthest(gauge, line);
        if gauge(line[cut], line.first(), line.last()).beyond {
            lemma_farthest_interior(gauge, line);
            let left = line.subrange(0, cut + 1);
            let right = line.subrange(cut, line.len() as int);
            lemma_simplified_subsequence(gauge, left);
            lemma_simplified_subsequence(gauge, right);
            lemma_simplified_ends(gauge, left);
            lemma_simplified_ends(gauge, right);
            let at_left = places(gauge, left);
            let at_right = places(gauge, right);
            let at = places(gauge, line);
            let part = simplified(gauge, line);
            let n = at_left.len() - 1;
            assert forall|i: int| 0 <= i < at.len() implies 0 <= #[trigger] at[i] < line.len()
                && part[i] == line[at[i]] by {
                if i < n {
                    assert(at[i] == at_left[i]);
                    assert(part[i] == simplified(gauge, left)[i]);
                    assert(left[at_left[i]] == line[at_left[i]]);
                } else {
                    assert(at[i] == at_right[i - n] + cut);
                    assert(part[i] == simplified(gauge, right)[i - n]);
                    assert(right[at_right[i - n]] == line[at_right[i - n] + cut]);
                }
            }
            assert forall|i: int, j: int| 0 <= i < j < at.len() implies at[i] < at[j] by {
                if j < n {
                    assert(at_left[i] < at_left[j]);
                } else if i >= n {
                    assert(at_right[i - n] < at_right[j - n]);
                } else {
                    assert(at_left[i] < at_left[n]);
                    assert(at_right[j - n] >= 0);
                }
            }
        }
    }
}

/// Over one chord, whatever deviates no less than a point that is beyond
/// the tolerance is beyond it too.
pub open spec fn steady<T>(gauge: Gauge<T>) -> bool {
    forall|p: T, q: T, s: T, e: T|
        (#[trigger] gauge(p, s, e)).beyond && gauge(p, s, e).deviation <= (#[trigger] gauge(
            q,
            s,
            e,
        )).deviation ==> gauge(q, s, e).beyond
}

/// No point of `line` between two places that follow each other in `at`
/// is beyond the tolerance of the chord between the points at those places.
pub open spec fn within<T>(gauge: Gauge<T>, line: Seq<T>, at: Seq<int>) -> bool {
    forall|k: int, i: int|
        0 <= k < at.len() - 1 && at[k] < i < at[k + 1] ==> !(#[trigger] gauge(
            line[i],
            line[at[k]],
            line[#[trigger] at[k + 1]],
        )).beyond
}

/// Every point that is dropped lies within the tolerance of the chord that
/// takes its place: the chord between the nearest points that stay.
pub proof fn lemma_dropped_within_tolerance<T>(gauge: Gauge<T>, line: Seq<T>)
    requires
        steady(gauge),
    ensures
        within(gauge, line, places(gauge, line)),
    decreases line.len(),
{
    let at = places(gauge, line);
    if line.len() >= 3 {
        let cut = farthest(gauge, line);
        lemma_farthest_interior(gauge, line);
        lemma_first_max(deviations(gauge, line));
        if gauge(line[cut], line.first(), line.last()).beyond {
            let left = line.subrange(0, cut + 1);
            let right = line.subrange(cut, line.len() as int);
            lemma_dropped_within_tolerance(gauge, left);
            lemma_dropped_within_tolerance(gauge, right);
            lemma_simplified_subsequence(gauge, left);
            lemma_simplified_subsequence(gauge, right);
            lemma_simplified_ends(gauge, left);
            lemma_simplified_ends(gauge, right);
            let at_left = places(gauge, left);
            let at_right = places(gauge, right);
            let n = at_left.len() - 1;
            assert forall|k: int, i: int| 0 <= k < at.len() - 1 && at[k] < i < at[k + 1] implies !(
            #[trigger] gauge(line[i], line[at[k]], line[#[trigger] at[k + 1]])).beyond by {
                if k < n {
                    assert(at[k] == at_left[k]);
                    assert(at[k + 1] == at_left[k + 1]);
                    assert(at_left[k + 1] <= at_left[n]) by {
                        if k + 1 < n {
                            assert(at_left[k + 1] < at_left[n]);
                        }
                    }
                    assert(!gauge(left[i], left[at_left[k]], left[at_left[k + 1]]).beyond);
                } else {
                    let j = k - n;
                    assert(at[k] == at_right[j] + cut);
                    assert(at[k + 1] == at_right[j + 1] + cut);
                    assert(!gauge(
                        right[i - cut],
                        right[at_right[j]],
                        right[at_right[j + 1]],
                    ).beyond);
                }
            }
        } else {
            assert forall|k: int, i: int| 0 <= k < at.len() - 1 && at[k] < i < at[k + 1] implies !(
            #[trigger] gauge(line[i], line[at[k]], line[#[trigger] at[k + 1]])).beyond by {
                let all = deviations(gauge, line);
                assert(all[i - 1] <= all[cut - 1]);
            }
        }
    } else {
        assert forall|k: int, i: int| 0 <= k < at.len() - 1 && at[k] < i < at[k + 1] implies !(
        #[trigger] gauge(line[i], line[at[k]], line[#[trigger] at[k + 1]])).beyond by {
            assert(false);
        }
    }
}

/// A simplified line is never longer than the line.
pub proof fn lemma_simplified_no_longer<T>(gauge: Gauge<T>, line: Seq<T>)
    ensures
        simplified(gauge, line).len() <= line.len(),
{
    lemma_simplified_ends(gauge, line);
}

/// Simplifying a simplified line again, by the same gauge, changes nothing.
pub proof fn lemma_simplified_idempotent<T>(gauge: Gauge<T>, line: Seq<T>)
    ensures
        simplified(gauge, simplified(gauge, line)) == simplified(gauge, line),
    decreases line.len(),
{
    if line.len() >= 3 {
        let cut = farthest(gauge, line);
        if gauge(line[cut], line.first(), line.last()).beyond {
            lemma_farthest_interior(gauge, line);
            lemma_first_max(deviations(gauge, line));
            let left = line.subrange(0, cut + 1);
            let right = line.subrange(cut, line.len() as int);
            let kept_left = simplified(gauge, left);
            let kept_right = simplified(gauge, right);
            let kept = simplified(gauge, line);
            lemma_simplified_subsequence(gauge, left);
            lemma_simplified_subsequence(gauge, right);
            let at_left = places(gauge, left);
            let at_right = places(gauge, right);
            lemma_simplified_ends(gauge, left);
            lemma_simplified_ends(gauge, right);
            lemma_simplified_idempotent(gauge, left);
            lemma_simplified_idempotent(gauge, right);
            let n = kept_left.len() - 1;
            assert(kept == kept_left.drop_last() + kept_right);
            assert(kept[n] == line[cut]);
            // The point at which the line was cut is the first farthest
            // point of what is kept, too.
            let whole = deviations(gauge, line);
            let rest = deviations(gauge, kept);
            assert(is_first_max(rest, n - 1)) by {
                assert(rest[n - 1] == whole[cut - 1]);
                assert forall|i: int| 0 <= i < n - 1 implies #[trigger] rest[i] < rest[n - 1] by {
                    assert(kept[i + 1] == kept_left[i + 1]);
                    assert(at_left[0] < at_left[i + 1] < at_left[n]);
                    assert(kept_left[i + 1] == left[at_left[i + 1]]);
                    assert(rest[i] == whole[at_left[i + 1] - 1]);
                }
                assert forall|i: int| n - 1 <= i < rest.len() implies #[trigger] rest[i] <= rest[n - 1] by {
                    let k = i + 1 - n;
                    assert(kept[i + 1] == kept_right[k]);
                    assert(kept_right[k] == right[at_right[k]]);
                    if k > 0 {
                        assert(at_right[0] < at_right[k]);
                    }
                    assert(at_right[k] < at_right[kept_right.len() - 1]);
                    assert(rest[i] == whole[cut + at_right[k] - 1]);
                }
            }
            lemma_first_max(rest);
            assert(farthest(gauge, kept) == n);
            assert(kept.subrange(0, n + 1) == kept_left);
            assert(kept.subrange(n, kept.len() as int) == kept_right);
        }
    }
}

/// `strict` and `loose` give every point the same deviation, and whatever
/// is beyond the tolerance of `loose` is beyond that of `strict`.
pub open spec fn no_looser<T>(strict: Gauge<T>, loose: Gauge<T>) -> bool {
    forall|p: T, s: T, e: T|
        {
            &&& (#[trigger] strict(p, s, e)).deviation == loose(p, s, e).deviation
            &&& loose(p, s, e).beyond ==> strict(p, s, e).beyond
        }
}

/// Under a looser tolerance no more points stay.
pub proof fn lemma_simplified_monotonic<T>(strict: Gauge<T>, loose: Gauge<T>, line: Seq<T>)
    requires
        no_looser(strict, loose),
    ensures
        simplified(strict, line).len() >= simplified(loose, line).len(),
    decreases line.len(),
{
    if line.len() >= 3 {
        assert(deviations(strict, line) == deviations(loose, line));
        let cut = farthest(strict, line);
        lemma_farthest_interior(strict, line);
        let left = line.subrange(0, cut + 1);
        let right = line.subrange(cut, line.len() as int);
        lemma_simplified_monotonic(strict, loose, left);
        lemma_simplified_monotonic(strict, loose, right);
        lemma_simplified_ends(strict, left);
        lemma_simplified_ends(strict, right);
        lemma_simplified_ends(loose, left);
        lemma_simplified_ends(loose, right);
    }
}

} // verus!
