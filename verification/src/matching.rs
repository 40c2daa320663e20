//! Which tracks and detections are matched, in terms of overlaps and
//! confidences.

use crate::assignment::lemma_found_assignment;
use crate::association::{above_threshold, association, costs_between};
use crate::binary64::{
    lemma_only_one_is_free, lemma_scaled_by_bits, lemma_unit_interval_by_bits, overlap_cost,
    Binary64,
};
use crate::confidence::SimpleSortConfidenceMode;
use crate::matrix::{is_assignment, rectangular, total_cost, width};
use crate::procedure::found_assignment;
use crate::select::{lemma_ascending_unique, lemma_select};
use crate::track::SimpleSortDetection;
use crate::tracker::{lemma_every_track, track_matched, TrackerState};
use vstd::prelude::*;

verus! {

/// The pairs that reach the threshold, by their places among all pairs.
proof fn lemma_above_exactly(
    overlaps: Seq<Seq<Binary64>>,
    tracks: Seq<usize>,
    detections: Seq<usize>,
    threshold: Binary64,
    pairs: Seq<(usize, usize)>,
) -> (from: Seq<int>)
    ensures
        ({
            let matches = above_threshold(overlaps, tracks, detections, threshold, pairs);
            &&& from.len() == matches.len()
            &&& forall|m: int|
                0 <= m < from.len() ==> 0 <= #[trigger] from[m] < pairs.len() && matches[m] == (
                    tracks[pairs[from[m]].0 as int],
                    detections[pairs[from[m]].1 as int],
                ) && overlaps[matches[m].0 as int][matches[m].1 as int].at_least(threshold)
            &&& forall|m: int, n: int|
                0 <= m < n < from.len() ==> #[trigger] from[m] < #[trigger] from[n]
            &&& forall|k: int|
                0 <= k < pairs.len() && overlaps[tracks[(
                #[trigger] pairs[k]).0 as int] as int][detections[pairs[k].1 as int] as int].at_least(
                    threshold,
                ) ==> from.contains(k)
        }),
    decreases pairs.len(),
{
    if pairs.len() == 0 {
        Seq::empty()
    } else {
        let front = pairs.drop_last();
        let before = lemma_above_exactly(overlaps, tracks, detections, threshold, front);
        let last = pairs.len() - 1;
        assert(pairs[last] == pairs.last());
        let track = tracks[pairs[last].0 as int];
        let detection = detections[pairs[last].1 as int];
        let good = overlaps[track as int][detection as int].at_least(threshold);
        let from = if good {
            before.push(last)
        } else {
            before
        };
        let matches = above_threshold(overlaps, tracks, detections, threshold, pairs);
        assert forall|m: int| 0 <= m < from.len() implies 0 <= #[trigger] from[m] < pairs.len()
            && matches[m] == (
            tracks[pairs[from[m]].0 as int],
            detections[pairs[from[m]].1 as int],
        ) && overlaps[matches[m].0 as int][matches[m].1 as int].at_least(threshold) by {
            if m < before.len() {
                assert(before[m] == from[m]);
                assert(front[before[m]] == pairs[before[m]]);
            }
        }
        assert forall|m: int, n: int| 0 <= m < n < from.len() implies #[trigger] from[m]
            < #[trigger] from[n] by {
            assert(before[m] == from[m]);
            if n < before.len() {
                assert(before[n] == from[n]);
            }
        }
        assert forall|k: int|
            0 <= k < pairs.len() && overlaps[tracks[(
            #[trigger] pairs[k]).0 as int] as int][detections[pairs[k].1 as int] as int].at_least(
                threshold,
            ) implies from.contains(k) by {
            if k < last {
                assert(front[k] == pairs[k]);
                assert(before.contains(k));
                let m = choose|m: int| 0 <= m < before.len() && before[m] == k;
                assert(from[m] == k);
            } else {
                assert(from[before.len() as int] == k);
            }
        }
        from
    }
}

/// The matches are exactly the pairs of the assignment, at cost 1 less overlap,
/// whose overlap reaches the threshold: `from` gives the place of each match
/// among the pairs, in order, and no pair that reaches the threshold is left
/// out.
pub proof fn lemma_matches_exactly(
    overlaps: Seq<Seq<Binary64>>,
    tracks: Seq<usize>,
    detections: Seq<usize>,
    threshold: Binary64,
    costs: Seq<Seq<i64>>,
) -> (from: Seq<int>)
    requires
        costs.len() == tracks.len(),
        forall|a: int| 0 <= a < costs.len() ==> (#[trigger] costs[a]).len() == detections.len(),
        forall|a: int, b: int|
            0 <= a < tracks.len() && 0 <= b < detections.len() ==> #[trigger] costs[a][b]
                == overlap_cost(overlaps[tracks[a] as int][detections[b] as int]),
    ensures
        ({
            let pairs = found_assignment(costs);
            let matches = association(overlaps, tracks, detections, threshold);
            &&& from.len() == matches.len()
            &&& forall|m: int|
                0 <= m < from.len() ==> 0 <= #[trigger] from[m] < pairs.len() && matches[m] == (
                    tracks[pairs[from[m]].0 as int],
                    detections[pairs[from[m]].1 as int],
                ) && overlaps[matches[m].0 as int][matches[m].1 as int].at_least(threshold)
            &&& forall|m: int, n: int|
                0 <= m < n < from.len() ==> #[trigger] from[m] < #[trigger] from[n]
            &&& forall|k: int|
                0 <= k < pairs.len() && overlaps[tracks[(
                #[trigger] pairs[k]).0 as int] as int][detections[pairs[k].1 as int] as int].at_least(
                    threshold,
                ) ==> from.contains(k)
        }),
{
    let own = costs_between(overlaps, tracks, detections);
    assert(own =~= costs) by {
        assert forall|a: int| 0 <= a < costs.len() implies #[trigger] own[a] == costs[a] by {
            assert(costs[a].len() == detections.len());
            assert forall|b: int| 0 <= b < detections.len() implies #[trigger] own[a][b]
                == costs[a][b] by {}
            assert(own[a] =~= costs[a]);
        }
    }
    lemma_above_exactly(overlaps, tracks, detections, threshold, found_assignment(costs))
}

/// A total of costs that are not negative is at least each of them.
proof fn lemma_total_covers(costs: Seq<Seq<i64>>, pairs: Seq<(usize, usize)>, k: int)
    requires
        forall|l: int|
            0 <= l < pairs.len() ==> costs[(#[trigger] pairs[l]).0 as int][pairs[l].1 as int] >= 0,
    ensures
        total_cost(costs, pairs) >= 0,
        0 <= k < pairs.len() ==> total_cost(costs, pairs)
            >= costs[pairs[k].0 as int][pairs[k].1 as int],
    decreases pairs.len(),
{
    if pairs.len() > 0 {
        let front = pairs.drop_last();
        assert forall|l: int| 0 <= l < front.len() implies costs[(
        #[trigger] front[l]).0 as int][front[l].1 as int] >= 0 by {
            assert(front[l] == pairs[l]);
        }
        lemma_total_covers(costs, front, k);
        assert(pairs[pairs.len() - 1] == pairs.last());
        if k < front.len() && 0 <= k {
            assert(front[k] == pairs[k]);
        }
    }
}

/// Costs of 0 have a total of 0.
proof fn lemma_total_free(costs: Seq<Seq<i64>>, pairs: Seq<(usize, usize)>)
    requires
        forall|l: int|
            0 <= l < pairs.len() ==> costs[(#[trigger] pairs[l]).0 as int][pairs[l].1 as int] == 0,
    ensures
        total_cost(costs, pairs) == 0,
    decreases pairs.len(),
{
    if pairs.len() > 0 {
        let front = pairs.drop_last();
        assert forall|l: int| 0 <= l < front.len() implies costs[(
        #[trigger] front[l]).0 as int][front[l].1 as int] == 0 by {
            assert(front[l] == pairs[l]);
        }
        lemma_total_free(costs, front);
        assert(pairs[pairs.len() - 1] == pairs.last());
    }
}

/// As many ascending rows as there are rows are all of them.
proof fn lemma_all_rows(pairs: Seq<(usize, usize)>, k: int)
    requires
        forall|i: int, j: int|
            0 <= i < j < pairs.len() ==> (#[trigger] pairs[i]).0 < (#[trigger] pairs[j]).0,
        0 <= k < pairs.len(),
    ensures
        pairs[k].0 >= k,
        pairs[pairs.len() - 1].0 - pairs[k].0 >= pairs.len() - 1 - k,
    decreases k,
{
    lemma_rows_above(pairs, k);
    if k > 0 {
        lemma_all_rows(pairs, k - 1);
        assert(pairs[k - 1].0 < pairs[k].0);
    }
}

proof fn lemma_rows_above(pairs: Seq<(usize, usize)>, k: int)
    requires
        forall|i: int, j: int|
            0 <= i < j < pairs.len() ==> (#[trigger] pairs[i]).0 < (#[trigger] pairs[j]).0,
        0 <= k < pairs.len(),
    ensures
        pairs[pairs.len() - 1].0 - pairs[k].0 >= pairs.len() - 1 - k,
    decreases pairs.len() - k,
{
    if k < pairs.len() - 1 {
        lemma_rows_above(pairs, k + 1);
        assert(pairs[k].0 < pairs[k + 1].0);
    }
}

/// Where every pair reaches the threshold, every pair is a match.
proof fn lemma_above_all(
    overlaps: Seq<Seq<Binary64>>,
    tracks: Seq<usize>,
    detections: Seq<usize>,
    threshold: Binary64,
    pairs: Seq<(usize, usize)>,
)
    requires
        forall|k: int|
            0 <= k < pairs.len() ==> overlaps[tracks[(
            #[trigger] pairs[k]).0 as int] as int][detections[pairs[k].1 as int] as int].at_least(
                threshold,
            ),
    ensures
        above_threshold(overlaps, tracks, detections, threshold, pairs) == Seq::new(
            pairs.len(),
            |k: int| (tracks[pairs[k].0 as int], detections[pairs[k].1 as int]),
        ),
    decreases pairs.len(),
{
    let wanted = Seq::new(
        pairs.len(),
        |k: int| (tracks[pairs[k].0 as int], detections[pairs[k].1 as int]),
    );
    if pairs.len() > 0 {
        let front = pairs.drop_last();
        assert forall|k: int| 0 <= k < front.len() implies overlaps[tracks[(
        #[trigger] front[k]).0 as int] as int][detections[front[k].1 as int] as int].at_least(
            threshold,
        ) by {
            assert(front[k] == pairs[k]);
        }
        lemma_above_all(overlaps, tracks, detections, threshold, front);
        assert(pairs[pairs.len() - 1] == pairs.last());
    }
    assert(above_threshold(overlaps, tracks, detections, threshold, pairs) =~= wanted);
}

/// Tracks that each overlap a detection of their own completely, and no other
/// detection completely, are all matched with it.
pub proof fn lemma_complete_overlaps_match(
    overlaps: Seq<Seq<Binary64>>,
    tracks: Seq<usize>,
    detections: Seq<usize>,
    threshold: Binary64,
    own: Seq<int>,
)
    requires
        own.len() == tracks.len(),
        0 < tracks.len() <= detections.len() <= usize::MAX,
        forall|a: int| 0 <= a < own.len() ==> 0 <= #[trigger] own[a] < detections.len(),
        forall|a: int, b: int|
            0 <= a < b < own.len() ==> #[trigger] own[a] != #[trigger] own[b],
        forall|a: int, b: int|
            0 <= a < tracks.len() && 0 <= b < detections.len() ==> {
                let overlap = overlaps[#[trigger] tracks[a] as int][#[trigger] detections[b] as int];
                if b == own[a] {
                    overlap.bits == 0x3ff0_0000_0000_0000
                } else {
                    overlap.bits < 0x3ff0_0000_0000_0000
                }
            },
        threshold.in_unit_interval(),
    ensures
        association(overlaps, tracks, detections, threshold) == Seq::new(
            tracks.len(),
            |a: int| (tracks[a], detections[own[a]]),
        ),
{
    let costs = costs_between(overlaps, tracks, detections);
    let n = tracks.len() as int;
    assert(rectangular(costs) && width(costs) == detections.len());
    assert forall|a: int, b: int| 0 <= a < n && 0 <= b < detections.len() implies
        #[trigger] costs[a][b] >= 0 && (costs[a][b] == 0 <==> b == own[a]) by {
        let overlap = overlaps[tracks[a] as int][detections[b] as int];
        lemma_unit_interval_by_bits(overlap);
        lemma_only_one_is_free(overlap);
        crate::binary64::lemma_cost_is_nearest(overlap);
    }
    lemma_found_assignment(costs);
    let pairs = found_assignment(costs);
    let other = Seq::new(tracks.len(), |a: int| (a as usize, own[a] as usize));
    assert forall|k: int, l: int| 0 <= k < l < other.len() implies (#[trigger] other[k]).0 != (
    #[trigger] other[l]).0 && other[k].1 != other[l].1 by {
        assert(own[k] != own[l]);
    }
    assert forall|k: int| 0 <= k < other.len() implies (#[trigger] other[k]).0 < n && other[k].1
        < detections.len() && costs[other[k].0 as int][other[k].1 as int] == 0 by {
        assert(0 <= own[k] < detections.len());
        assert(costs[k][own[k]] == 0);
    }
    assert(is_assignment(costs.len(), width(costs), other));
    lemma_total_free(costs, other);
    assert forall|k: int| 0 <= k < pairs.len() implies (#[trigger] pairs[k]).0 == k && pairs[k].1
        == own[k] by {
        assert forall|l: int| 0 <= l < pairs.len() implies costs[(
        #[trigger] pairs[l]).0 as int][pairs[l].1 as int] >= 0 by {
            assert(pairs[l].0 < n && pairs[l].1 < detections.len());
        }
        lemma_total_covers(costs, pairs, k);
        lemma_all_rows(pairs, k);
        assert(pairs[pairs.len() - 1].0 < n);
        assert(pairs[k].1 < detections.len());
        assert(costs[k][pairs[k].1 as int] == 0);
    }
    lemma_scaled_by_bits(0);
    assert forall|k: int| 0 <= k < pairs.len() implies overlaps[tracks[(
    #[trigger] pairs[k]).0 as int] as int][detections[pairs[k].1 as int] as int].at_least(
        threshold,
    ) by {
        let overlap = overlaps[tracks[k] as int][detections[own[k]] as int];
        assert(pairs[k].0 == k && pairs[k].1 == own[k]);
        assert(0 <= own[k] < detections.len());
        assert(overlap.bits == 0x3ff0_0000_0000_0000);
        assert(overlap == (Binary64 { bits: 0x3ff0_0000_0000_0000 }));
        lemma_unit_interval_by_bits(overlap);
    }
    lemma_above_all(overlaps, tracks, detections, threshold, pairs);
    assert(association(overlaps, tracks, detections, threshold) =~= Seq::new(
        tracks.len(),
        |a: int| (tracks[a], detections[own[a]]),
    ));
}

/// The detections of the first pass are all of them in mode `All`, and those
/// that reach the high-confidence threshold in the other modes; those of the
/// second pass are the others in two-stage mode, and none in the other modes.
/// Both lists are in order.
pub proof fn lemma_detections_of_passes(
    state: TrackerState,
    detections: Seq<SimpleSortDetection>,
    d: usize,
)
    requires
        detections.len() <= usize::MAX,
    ensures
        state.primary(detections).contains(d) <==> d < detections.len() && (state.confidence_mode
            == SimpleSortConfidenceMode::All || detections[d as int].confidence.at_least(
            state.high_confidence_threshold,
        )),
        state.secondary(detections).contains(d) <==> d < detections.len() && state.confidence_mode
            == SimpleSortConfidenceMode::TwoStage && !detections[d as int].confidence.at_least(
            state.high_confidence_threshold,
        ),
        forall|k: int, l: int|
            0 <= k < l < state.primary(detections).len() ==> #[trigger] state.primary(
                detections,
            )[k] < #[trigger] state.primary(detections)[l],
        forall|k: int, l: int|
            0 <= k < l < state.secondary(detections).len() ==> #[trigger] state.secondary(
                detections,
            )[k] < #[trigger] state.secondary(detections)[l],
{
    let first = |d: int| state.is_primary(detections[d]);
    let second = |d: int| state.is_secondary(detections[d]);
    lemma_select(detections.len(), first);
    lemma_select(detections.len(), second);
    if d < detections.len() {
        assert(first(d as int) ==> state.primary(detections).contains(d as int as usize));
        assert(second(d as int) ==> state.secondary(detections).contains(d as int as usize));
    }
    if state.primary(detections).contains(d) {
        let k = choose|k: int|
            0 <= k < state.primary(detections).len() && state.primary(detections)[k] == d;
        assert(first(state.primary(detections)[k] as int));
    }
    if state.secondary(detections).contains(d) {
        let k = choose|k: int|
            0 <= k < state.secondary(detections).len() && state.secondary(detections)[k] == d;
        assert(second(state.secondary(detections)[k] as int));
    }
}

/// In two-stage mode every detection is in exactly one of the two passes.
pub proof fn lemma_every_detection_in_one_pass(
    state: TrackerState,
    detections: Seq<SimpleSortDetection>,
    d: usize,
)
    requires
        detections.len() <= usize::MAX,
        d < detections.len(),
        state.confidence_mode == SimpleSortConfidenceMode::TwoStage,
    ensures
        state.primary(detections).contains(d) != state.secondary(detections).contains(d),
{
    lemma_detections_of_passes(state, detections, d);
}

/// The first pass associates all tracks with the detections that are accepted
/// at once; the second pass, in two-stage mode only, associates the tracks
/// that no match of the first pass holds with the detections below the
/// high-confidence threshold. Whoever lists these in order has the matches.
pub proof fn lemma_passes_exactly(
    state: TrackerState,
    detections: Seq<SimpleSortDetection>,
    overlaps: Seq<Seq<Binary64>>,
    every: Seq<usize>,
    accepted: Seq<usize>,
    left: Seq<usize>,
    low: Seq<usize>,
)
    requires
        state.tracks.len() <= usize::MAX,
        detections.len() <= usize::MAX,
        every.len() == state.tracks.len(),
        forall|t: int| 0 <= t < every.len() ==> #[trigger] every[t] == t,
        forall|k: int, l: int|
            0 <= k < l < accepted.len() ==> #[trigger] accepted[k] < #[trigger] accepted[l],
        forall|d: usize| #[trigger]
            accepted.contains(d) <==> d < detections.len() && (state.confidence_mode
                == SimpleSortConfidenceMode::All || detections[d as int].confidence.at_least(
                state.high_confidence_threshold,
            )),
        forall|k: int, l: int|
            0 <= k < l < low.len() ==> #[trigger] low[k] < #[trigger] low[l],
        forall|d: usize| #[trigger]
            low.contains(d) <==> d < detections.len() && !detections[d as int].confidence.at_least(
                state.high_confidence_threshold,
            ),
        forall|k: int, l: int|
            0 <= k < l < left.len() ==> #[trigger] left[k] < #[trigger] left[l],
        forall|t: usize| #[trigger]
            left.contains(t) <==> t < state.tracks.len() && forall|k: int|
                0 <= k < state.first_pass(detections, overlaps).len() ==> (
                #[trigger] state.first_pass(detections, overlaps)[k]).0 != t,
    ensures
        state.first_pass(detections, overlaps) == association(
            overlaps,
            every,
            accepted,
            state.iou_threshold,
        ),
        state.confidence_mode == SimpleSortConfidenceMode::TwoStage ==> state.second_pass(
            detections,
            overlaps,
        ) == association(overlaps, left, low, state.iou_threshold),
        state.confidence_mode != SimpleSortConfidenceMode::TwoStage ==> state.second_pass(
            detections,
            overlaps,
        ).len() == 0,
{
    lemma_every_track(state);
    assert(every =~= state.every_track());
    let primary = state.primary(detections);
    let secondary = state.secondary(detections);
    lemma_select(detections.len(), |d: int| state.is_primary(detections[d]));
    lemma_select(detections.len(), |d: int| state.is_secondary(detections[d]));
    assert forall|d: usize| #[trigger] primary.contains(d) <==> accepted.contains(d) by {
        lemma_detections_of_passes(state, detections, d);
    }
    lemma_ascending_unique(primary, accepted);
    let first = state.first_pass(detections, overlaps);
    if state.confidence_mode == SimpleSortConfidenceMode::TwoStage {
        assert forall|d: usize| #[trigger] secondary.contains(d) <==> low.contains(d) by {
            lemma_detections_of_passes(state, detections, d);
        }
        lemma_ascending_unique(secondary, low);
        let open = |t: int| !track_matched(first, t);
        let unmatched = state.unmatched(first);
        lemma_select(state.tracks.len(), open);
        assert forall|t: usize| #[trigger] unmatched.contains(t) <==> left.contains(t) by {
            if unmatched.contains(t) {
                let k = choose|k: int| 0 <= k < unmatched.len() && unmatched[k] == t;
                assert(open(unmatched[k] as int));
                assert forall|k: int| 0 <= k < first.len() implies (#[trigger] first[k]).0 != t by {
                    assert(!track_matched(first, t as int));
                }
            }
            if left.contains(t) {
                assert(!track_matched(first, t as int)) by {
                    if track_matched(first, t as int) {
                        let k = choose|k: int|
                            0 <= k < first.len() && (#[trigger] first[k]).0 == t as int;
                        assert(state.first_pass(detections, overlaps)[k].0 == t);
                    }
                }
                assert(open(t as int));
                assert(unmatched.contains(t as int as usize));
            }
        }
        lemma_ascending_unique(unmatched, left);
    }
}

/// What a frame's matches are known by is what the two passes give.
pub proof fn lemma_matches_of_frame(
    state: TrackerState,
    detections: Seq<SimpleSortDetection>,
    overlaps: Seq<Seq<Binary64>>,
    first: Seq<(usize, usize)>,
    second: Seq<(usize, usize)>,
)
    requires
        state.associates(detections, overlaps, first, second),
    ensures
        first == state.first_pass(detections, overlaps),
        second == state.second_pass(detections, overlaps),
{
}

} // verus!
