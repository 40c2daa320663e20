//! Association of predicted tracks with detections by their overlap.

use crate::assignment::{lemma_found_assignment, linear_sum_assignment};
use crate::binary64::{overlap_cost, Binary64};
use crate::matrix::{
    ascending_rows, disjoint_pairs, is_minimum_assignment, matrix, pairs_within, rectangular,
    width,
};
use crate::procedure::found_assignment;
use vstd::prelude::*;

verus! {

/// `overlaps` has a value from 0 to 1 for each of the given tracks (rows) with
/// each of the given detections (columns).
pub open spec fn overlaps_known(
    overlaps: Seq<Seq<Binary64>>,
    tracks: Seq<usize>,
    detections: Seq<usize>,
) -> bool {
    forall|a: int, b: int|
        0 <= a < tracks.len() && 0 <= b < detections.len() ==> {
            &&& (#[trigger] tracks[a]) < overlaps.len()
            &&& (#[trigger] detections[b]) < overlaps[tracks[a] as int].len()
            &&& overlaps[tracks[a] as int][detections[b] as int].in_unit_interval()
        }
}

/// The costs of giving the given tracks (rows) the given detections (columns):
/// 1 less the overlap.
pub open spec fn costs_between(
    overlaps: Seq<Seq<Binary64>>,
    tracks: Seq<usize>,
    detections: Seq<usize>,
) -> Seq<Seq<i64>> {
    Seq::new(
        tracks.len(),
        |a: int|
            Seq::new(
                detections.len(),
                |b: int| overlap_cost(overlaps[tracks[a] as int][detections[b] as int]) as i64,
            ),
    )
}

/// Of `pairs`, which index `tracks` and `detections`, those whose overlap
/// reaches the threshold, as the (track, detection) pairs that they stand for.
pub open spec fn above_threshold(
    overlaps: Seq<Seq<Binary64>>,
    tracks: Seq<usize>,
    detections: Seq<usize>,
    threshold: Binary64,
    pairs: Seq<(usize, usize)>,
) -> Seq<(usize, usize)>
    decreases pairs.len(),
{
    if pairs.len() == 0 {
        Seq::empty()
    } else {
        let front = above_threshold(overlaps, tracks, detections, threshold, pairs.drop_last());
        let track = tracks[pairs.last().0 as int];
        let detection = detections[pairs.last().1 as int];
        if overlaps[track as int][detection as int].at_least(threshold) {
            front.push((track, detection))
        } else {
            front
        }
    }
}

/// `matches` is what a cheapest assignment of the given tracks to the given
/// detections leaves once the threshold is applied to it.
pub open spec fn is_association(
    overlaps: Seq<Seq<Binary64>>,
    tracks: Seq<usize>,
    detections: Seq<usize>,
    threshold: Binary64,
    matches: Seq<(usize, usize)>,
) -> bool {
    exists|pairs: Seq<(usize, usize)>|
        {
            &&& #[trigger] is_minimum_assignment(
                costs_between(overlaps, tracks, detections),
                pairs,
            )
            &&& ascending_rows(pairs)
            &&& matches == above_threshold(overlaps, tracks, detections, threshold, pairs)
        }
}

/// The matches of the given tracks with the given detections that the tracker
/// finds: those of the assignment that it finds at these costs.
pub open spec fn association(
    overlaps: Seq<Seq<Binary64>>,
    tracks: Seq<usize>,
    detections: Seq<usize>,
    threshold: Binary64,
) -> Seq<(usize, usize)> {
    above_threshold(
        overlaps,
        tracks,
        detections,
        threshold,
        found_assignment(costs_between(overlaps, tracks, detections)),
    )
}

/// The costs of the given tracks with the given detections.
fn association_costs(
    overlaps: &[Vec<Binary64>],
    track_indices: &[usize],
    detection_indices: &[usize],
) -> (costs: Vec<Vec<i64>>)
    requires
        overlaps_known(matrix(overlaps@), track_indices@, detection_indices@),
    ensures
        matrix(costs@) == costs_between(matrix(overlaps@), track_indices@, detection_indices@),
{
    let ghost m = matrix(overlaps@);
    let ghost wanted = costs_between(m, track_indices@, detection_indices@);
    let mut costs: Vec<Vec<i64>> = Vec::with_capacity(track_indices.len());
    for a in 0..track_indices.len()
        invariant
            m == matrix(overlaps@),
            wanted == costs_between(m, track_indices@, detection_indices@),
            overlaps_known(m, track_indices@, detection_indices@),
            costs.len() == a,
            forall|i: int| 0 <= i < a ==> (#[trigger] costs@[i])@ == wanted[i],
    {
        let mut line: Vec<i64> = Vec::with_capacity(detection_indices.len());
        for b in 0..detection_indices.len()
            invariant
                m == matrix(overlaps@),
                wanted == costs_between(m, track_indices@, detection_indices@),
                overlaps_known(m, track_indices@, detection_indices@),
                a < track_indices.len(),
                line.len() == b,
                forall|j: int| 0 <= j < b ==> #[trigger] line@[j] == wanted[a as int][j],
        {
            let track: usize = track_indices[a];
            let detection: usize = detection_indices[b];
            assert(track < m.len() && detection < m[track as int].len());
            assert(m[track as int] == overlaps@[track as int]@);
            line.push(overlaps[track][detection].cost());
        }
        assert(line@ =~= wanted[a as int]);
        costs.push(line);
    }
    assert(matrix(costs@) =~= wanted);
    costs
}

/// Matches tracks with detections: a minimum-cost assignment at cost 1 less
/// overlap, of which the pairs stay whose overlap reaches the threshold.
pub fn assign_detections(
    overlaps: &[Vec<Binary64>],
    track_indices: &[usize],
    detection_indices: &[usize],
    iou_threshold: Binary64,
) -> (matches: Vec<(usize, usize)>)
    requires
        overlaps_known(matrix(overlaps@), track_indices@, detection_indices@),
    ensures
        is_association(
            matrix(overlaps@),
            track_indices@,
            detection_indices@,
            iou_threshold,
            matches@,
        ),
        matches@ == association(
            matrix(overlaps@),
            track_indices@,
            detection_indices@,
            iou_threshold,
        ),
{
    let ghost m = matrix(overlaps@);
    let costs = association_costs(overlaps, track_indices, detection_indices);
    let ghost c = matrix(costs@);
    assert(rectangular(c));
    let pairs = linear_sum_assignment(costs.as_slice());
    let mut matches: Vec<(usize, usize)> = Vec::new();
    for k in 0..pairs.len()
        invariant
            m == matrix(overlaps@),
            c == costs_between(m, track_indices@, detection_indices@),
            overlaps_known(m, track_indices@, detection_indices@),
            pairs_within(c.len(), width(c), pairs@),
            matches@ == above_threshold(
                m,
                track_indices@,
                detection_indices@,
                iou_threshold,
                pairs@.take(k as int),
            ),
    {
        let (a, b) = pairs[k];
        assert(pairs@[k as int].0 < c.len());
        assert(width(c) == detection_indices.len());
        let track: usize = track_indices[a];
        let detection: usize = detection_indices[b];
        assert(track < m.len() && detection < m[track as int].len());
        assert(m[track as int] == overlaps@[track as int]@);
        if overlaps[track][detection].ge(iou_threshold) {
            matches.push((track, detection));
        }
        assert(pairs@.take(k + 1).drop_last() =~= pairs@.take(k as int));
    }
    assert(pairs@.take(pairs.len() as int) =~= pairs@);
    assert(is_minimum_assignment(c, pairs@));
    matches
}

/// The matches that the tracker finds are what a cheapest assignment leaves.
pub proof fn lemma_found_association(
    overlaps: Seq<Seq<Binary64>>,
    tracks: Seq<usize>,
    detections: Seq<usize>,
    threshold: Binary64,
)
    requires
        tracks.len() <= usize::MAX,
        detections.len() <= usize::MAX,
    ensures
        is_association(
            overlaps,
            tracks,
            detections,
            threshold,
            association(overlaps, tracks, detections, threshold),
        ),
{
    let costs = costs_between(overlaps, tracks, detections);
    assert(rectangular(costs));
    lemma_found_assignment(costs);
    assert(is_minimum_assignment(costs, found_assignment(costs)));
}

proof fn lemma_above_threshold(
    overlaps: Seq<Seq<Binary64>>,
    tracks: Seq<usize>,
    detections: Seq<usize>,
    threshold: Binary64,
    pairs: Seq<(usize, usize)>,
)
    requires
        disjoint_pairs(pairs),
        pairs_within(tracks.len(), detections.len(), pairs),
        tracks.no_duplicates(),
        detections.no_duplicates(),
    ensures
        ({
            let matches = above_threshold(overlaps, tracks, detections, threshold, pairs);
            &&& disjoint_pairs(matches)
            &&& forall|k: int|
                0 <= k < matches.len() ==> exists|l: int|
                    0 <= l < pairs.len() && (#[trigger] matches[k]) == (
                        tracks[(#[trigger] pairs[l]).0 as int],
                        detections[pairs[l].1 as int],
                    )
            &&& forall|k: int|
                0 <= k < matches.len()
                    ==> overlaps[(#[trigger] matches[k]).0 as int][matches[k].1 as int].at_least(
                    threshold,
                )
        }),
    decreases pairs.len(),
{
    if pairs.len() > 0 {
        let front = pairs.drop_last();
        assert forall|k: int, l: int| 0 <= k < l < front.len() implies (#[trigger] front[k]).0 != (
        #[trigger] front[l]).0 && front[k].1 != front[l].1 by {
            assert(front[k] == pairs[k] && front[l] == pairs[l]);
        }
        assert forall|k: int| 0 <= k < front.len() implies (#[trigger] front[k]).0 < tracks.len()
            && front[k].1 < detections.len() by {
            assert(front[k] == pairs[k]);
        }
        lemma_above_threshold(overlaps, tracks, detections, threshold, front);
        let fewer = above_threshold(overlaps, tracks, detections, threshold, front);
        let matches = above_threshold(overlaps, tracks, detections, threshold, pairs);
        let z = pairs.len() - 1;
        assert forall|k: int| 0 <= k < matches.len() implies exists|l: int|
            0 <= l < pairs.len() && (#[trigger] matches[k]) == (
                tracks[(#[trigger] pairs[l]).0 as int],
                detections[pairs[l].1 as int],
            ) by {
            if k < fewer.len() {
                assert(matches[k] == fewer[k]);
                let l = choose|l: int|
                    0 <= l < front.len() && fewer[k] == (
                        tracks[(#[trigger] front[l]).0 as int],
                        detections[front[l].1 as int],
                    );
                assert(front[l] == pairs[l]);
            } else {
                assert(matches[k] == (tracks[pairs[z].0 as int], detections[pairs[z].1 as int]));
            }
        }
        assert forall|k: int| 0 <= k < matches.len() implies overlaps[(
        #[trigger] matches[k]).0 as int][matches[k].1 as int].at_least(threshold) by {
            if k < fewer.len() {
                assert(matches[k] == fewer[k]);
            }
        }
        assert forall|k: int, l: int| 0 <= k < l < matches.len() implies (#[trigger] matches[k]).0
            != (#[trigger] matches[l]).0 && matches[k].1 != matches[l].1 by {
            assert(matches[k] == fewer[k]);
            if l < fewer.len() {
                assert(matches[l] == fewer[l]);
            } else {
                let a = choose|a: int|
                    0 <= a < front.len() && fewer[k] == (
                        tracks[(#[trigger] front[a]).0 as int],
                        detections[front[a].1 as int],
                    );
                assert(front[a] == pairs[a]);
                assert(pairs[a].0 != pairs[z].0 && pairs[a].1 != pairs[z].1);
                assert(pairs[z].0 < tracks.len() && pairs[z].1 < detections.len());
                assert(pairs[a].0 < tracks.len() && pairs[a].1 < detections.len());
            }
        }
    }
}

/// An association gives no track two detections and no detection two tracks,
/// keeps to the tracks and detections that it was given, and holds no pair
/// whose overlap is below the threshold.
pub proof fn lemma_association(
    overlaps: Seq<Seq<Binary64>>,
    tracks: Seq<usize>,
    detections: Seq<usize>,
    threshold: Binary64,
    matches: Seq<(usize, usize)>,
)
    requires
        is_association(overlaps, tracks, detections, threshold, matches),
        tracks.no_duplicates(),
        detections.no_duplicates(),
    ensures
        disjoint_pairs(matches),
        forall|k: int|
            0 <= k < matches.len() ==> {
                &&& tracks.contains((#[trigger] matches[k]).0)
                &&& detections.contains(matches[k].1)
                &&& overlaps[matches[k].0 as int][matches[k].1 as int].at_least(threshold)
            },
{
    let costs = costs_between(overlaps, tracks, detections);
    let pairs = choose|pairs: Seq<(usize, usize)>|
        {
            &&& #[trigger] is_minimum_assignment(costs, pairs)
            &&& ascending_rows(pairs)
            &&& matches == above_threshold(overlaps, tracks, detections, threshold, pairs)
        };
    assert(costs.len() == tracks.len());
    assert(width(costs) <= detections.len());
    assert(pairs_within(tracks.len(), detections.len(), pairs)) by {
        assert forall|k: int| 0 <= k < pairs.len() implies (#[trigger] pairs[k]).0 < tracks.len()
            && pairs[k].1 < detections.len() by {}
    }
    lemma_above_threshold(overlaps, tracks, detections, threshold, pairs);
    assert forall|k: int| 0 <= k < matches.len() implies {
        &&& tracks.contains((#[trigger] matches[k]).0)
        &&& detections.contains(matches[k].1)
    } by {
        let l = choose|l: int|
            0 <= l < pairs.len() && matches[k] == (
                tracks[(#[trigger] pairs[l]).0 as int],
                detections[pairs[l].1 as int],
            );
        assert(pairs[l].0 < tracks.len() && pairs[l].1 < detections.len());
    }
}

} // verus!
