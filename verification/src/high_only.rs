//! Where only high-confidence detections are used, the others might as well
//! not be there.

use crate::assignment::lemma_found_assignment;
use crate::association::{above_threshold, costs_between};
use crate::binary64::Binary64;
use crate::confidence::SimpleSortConfidenceMode;
use crate::matrix::{pairs_within, rectangular, width};
use crate::procedure::found_assignment;
use crate::select::{
    at_places, lemma_select, lemma_select_again, lemma_select_all, lemma_select_congruent, select,
};
use crate::track::SimpleSortDetection;
use crate::tracker::{
    detection_matched, detection_of, lemma_every_track, overlaps_shaped, TrackerState,
};
use vstd::prelude::*;

verus! {

/// The detections of high confidence, by their numbers.
pub open spec fn high_confidence(
    state: TrackerState,
    detections: Seq<SimpleSortDetection>,
) -> Seq<usize> {
    select(
        detections.len(),
        |d: int| detections[d].confidence.at_least(state.high_confidence_threshold),
    )
}

/// The detections with the given numbers.
pub open spec fn detections_at(
    detections: Seq<SimpleSortDetection>,
    places: Seq<usize>,
) -> Seq<SimpleSortDetection> {
    Seq::new(places.len(), |k: int| detections[places[k] as int])
}

/// The columns of the overlaps with the given numbers.
pub open spec fn columns_at(
    overlaps: Seq<Seq<Binary64>>,
    places: Seq<usize>,
) -> Seq<Seq<Binary64>> {
    Seq::new(
        overlaps.len(),
        |t: int| Seq::new(places.len(), |k: int| overlaps[t][places[k] as int]),
    )
}

/// The matches with each detection replaced by the one at that place.
pub open spec fn renumbered(
    matches: Seq<(usize, usize)>,
    places: Seq<usize>,
) -> Seq<(usize, usize)> {
    Seq::new(matches.len(), |k: int| (matches[k].0, places[matches[k].1 as int]))
}

/// Leaving out columns leaves out the pairs in them and renumbers the others.
proof fn lemma_above_renumbered(
    overlaps: Seq<Seq<Binary64>>,
    tracks: Seq<usize>,
    places: Seq<usize>,
    all: Seq<usize>,
    threshold: Binary64,
    pairs: Seq<(usize, usize)>,
)
    requires
        pairs_within(tracks.len(), places.len(), pairs),
        all.len() == places.len(),
        forall|b: int| 0 <= b < all.len() ==> #[trigger] all[b] == b,
        forall|a: int| 0 <= a < tracks.len() ==> (#[trigger] tracks[a]) < overlaps.len(),
    ensures
        ({
            let fewer = above_threshold(
                columns_at(overlaps, places),
                tracks,
                all,
                threshold,
                pairs,
            );
            &&& above_threshold(overlaps, tracks, places, threshold, pairs) == renumbered(
                fewer,
                places,
            )
            &&& forall|k: int| 0 <= k < fewer.len() ==> (#[trigger] fewer[k]).1 < places.len()
        }),
    decreases pairs.len(),
{
    let columns = columns_at(overlaps, places);
    let fewer = above_threshold(columns, tracks, all, threshold, pairs);
    let more = above_threshold(overlaps, tracks, places, threshold, pairs);
    if pairs.len() > 0 {
        let front = pairs.drop_last();
        assert forall|k: int| 0 <= k < front.len() implies (#[trigger] front[k]).0 < tracks.len()
            && front[k].1 < places.len() by {
            assert(front[k] == pairs[k]);
        }
        lemma_above_renumbered(overlaps, tracks, places, all, threshold, front);
        let (a, b) = pairs[pairs.len() - 1];
        assert(tracks[a as int] < overlaps.len());
        assert(all[b as int] == b);
        assert(columns[tracks[a as int] as int][b as int]
            == overlaps[tracks[a as int] as int][places[b as int] as int]);
        assert(more =~= renumbered(fewer, places));
    } else {
        assert(more =~= renumbered(fewer, places));
    }
}

/// Renumbered matches give a track the renumbered detection.
proof fn lemma_detection_renumbered(
    matches: Seq<(usize, usize)>,
    places: Seq<usize>,
    track: int,
)
    requires
        forall|k: int| 0 <= k < matches.len() ==> (#[trigger] matches[k]).1 < places.len(),
    ensures
        detection_of(renumbered(matches, places), track) == match detection_of(matches, track) {
            Some(d) => Some(places[d as int]),
            None => None,
        },
        detection_of(matches, track) matches Some(d) ==> d < places.len(),
    decreases matches.len(),
{
    if matches.len() > 0 {
        let front = matches.drop_last();
        assert forall|k: int| 0 <= k < front.len() implies (#[trigger] front[k]).1
            < places.len() by {
            assert(front[k] == matches[k]);
        }
        lemma_detection_renumbered(front, places, track);
        assert(renumbered(matches, places).drop_last() =~= renumbered(front, places));
        assert(matches[matches.len() - 1] == matches.last());
        assert(renumbered(matches, places).last() == (
            matches.last().0,
            places[matches.last().1 as int],
        ));
    }
}

/// The first pass over the high-confidence detections alone has the same
/// matches, renumbered.
proof fn lemma_first_pass_filtered(
    state: TrackerState,
    detections: Seq<SimpleSortDetection>,
    overlaps: Seq<Seq<Binary64>>,
)
    requires
        state.confidence_mode == SimpleSortConfidenceMode::HighOnly,
        state.tracks.len() <= usize::MAX,
        detections.len() <= usize::MAX,
        overlaps_shaped(overlaps, state.tracks.len(), detections.len()),
    ensures
        ({
            let high = high_confidence(state, detections);
            let matches = state.first_pass(
                detections_at(detections, high),
                columns_at(overlaps, high),
            );
            &&& state.first_pass(detections, overlaps) == renumbered(matches, high)
            &&& forall|k: int| 0 <= k < matches.len() ==> (#[trigger] matches[k]).1 < high.len()
        }),
{
    let high = high_confidence(state, detections);
    let fewer = detections_at(detections, high);
    let columns = columns_at(overlaps, high);
    let every = state.every_track();
    let good = |d: int| detections[d].confidence.at_least(state.high_confidence_threshold);
    lemma_select(detections.len(), good);
    lemma_select_congruent(detections.len(), good, |d: int| state.is_primary(detections[d]));
    assert(state.primary(detections) == high);
    assert forall|k: int| 0 <= k < high.len() implies state.is_primary(#[trigger] fewer[k]) by {
        assert(good(high[k] as int));
    }
    let all = state.primary(fewer);
    lemma_select_all(high.len(), |k: int| state.is_primary(fewer[k]));
    lemma_every_track(state);
    let costs = costs_between(overlaps, every, high);
    assert forall|a: int| 0 <= a < every.len() implies (#[trigger] every[a]) < overlaps.len() by {
        assert(every[a] == a);
    }
    assert(costs =~= costs_between(columns, every, all)) by {
        assert forall|a: int| 0 <= a < every.len() implies #[trigger] costs[a] == costs_between(
            columns,
            every,
            all,
        )[a] by {
            assert(every[a] < overlaps.len());
            assert forall|b: int| 0 <= b < high.len() implies #[trigger] costs[a][b]
                == costs_between(columns, every, all)[a][b] by {
                assert(all[b] == b);
                assert(columns[every[a] as int][b] == overlaps[every[a] as int][high[b] as int]);
            }
            assert(costs[a] =~= costs_between(columns, every, all)[a]);
        }
    }
    assert(rectangular(costs));
    lemma_found_assignment(costs);
    let pairs = found_assignment(costs);
    assert(width(costs) <= high.len());
    assert(pairs_within(every.len(), high.len(), pairs)) by {
        assert forall|k: int| 0 <= k < pairs.len() implies (#[trigger] pairs[k]).0 < every.len()
            && pairs[k].1 < high.len() by {}
    }
    lemma_above_renumbered(overlaps, every, high, all, state.iou_threshold, pairs);
}

/// The high-confidence detections alone create the same tracks.
proof fn lemma_created_filtered(
    state: TrackerState,
    detections: Seq<SimpleSortDetection>,
    matches: Seq<(usize, usize)>,
)
    requires
        state.confidence_mode == SimpleSortConfidenceMode::HighOnly,
        detections.len() <= usize::MAX,
        forall|k: int|
            0 <= k < matches.len() ==> (#[trigger] matches[k]).1 < high_confidence(
                state,
                detections,
            ).len(),
    ensures
        ({
            let high = high_confidence(state, detections);
            let fewer = detections_at(detections, high);
            &&& state.created(detections, renumbered(matches, high)) == at_places(
                high,
                state.created(fewer, matches),
            )
            &&& forall|k: int|
                0 <= k < state.created(fewer, matches).len() ==> (#[trigger] state.created(
                    fewer,
                    matches,
                )[k]) < high.len()
        }),
{
    let high = high_confidence(state, detections);
    let fewer = detections_at(detections, high);
    let first = renumbered(matches, high);
    let good = |d: int| detections[d].confidence.at_least(state.high_confidence_threshold);
    let left = |d: int| !detection_matched(first, d);
    let within = |k: int| state.is_primary(fewer[k]) && !detection_matched(matches, k);
    let both = |d: int| state.is_primary(detections[d]) && !detection_matched(first, d);
    lemma_select(detections.len(), good);
    assert forall|k: int| 0 <= k < high.len() implies #[trigger] within(k) == left(
        high[k] as int,
    ) by {
        assert(good(high[k] as int));
        if detection_matched(matches, k) {
            let m = choose|m: int| 0 <= m < matches.len() && (#[trigger] matches[m]).1 == k;
            assert(first[m].1 == high[k]);
        }
        if detection_matched(first, high[k] as int) {
            let m = choose|m: int| 0 <= m < first.len() && (#[trigger] first[m]).1 == high[k];
            let l = matches[m].1 as int;
            assert(high[l] == high[k]);
            if l < k {
                assert(high[l] < high[k]);
            } else if k < l {
                assert(high[k] < high[l]);
            }
            assert(matches[m].1 == k);
        }
    }
    assert forall|d: int| 0 <= d < detections.len() implies #[trigger] both(d) == (good(d)
        && left(d)) by {}
    lemma_select_again(detections.len(), good, left, within, both);
    lemma_select(high.len(), within);
}

/// A frame in which only high-confidence detections are used matches, creates,
/// keeps and reports what the frame without the other detections does, and
/// leaves the same tracker.
pub proof fn lemma_high_only_is_filtering(
    state: TrackerState,
    detections: Seq<SimpleSortDetection>,
    overlaps: Seq<Seq<Binary64>>,
)
    requires
        state.confidence_mode == SimpleSortConfidenceMode::HighOnly,
        state.tracks.len() <= usize::MAX,
        detections.len() <= usize::MAX,
        overlaps_shaped(overlaps, state.tracks.len(), detections.len()),
    ensures
        ({
            let high = high_confidence(state, detections);
            let fewer = detections_at(detections, high);
            let columns = columns_at(overlaps, high);
            let first = state.first_pass(detections, overlaps);
            let second = state.second_pass(detections, overlaps);
            let fewer_first = state.first_pass(fewer, columns);
            let fewer_second = state.second_pass(fewer, columns);
            let after = state.after_frame(detections, first, second);
            let fewer_after = state.after_frame(fewer, fewer_first, fewer_second);
            &&& first == renumbered(fewer_first, high)
            &&& second == fewer_second
            &&& state.created(detections, first) == at_places(
                high,
                state.created(fewer, fewer_first),
            )
            &&& state.kept(detections, first, second) == state.kept(
                fewer,
                fewer_first,
                fewer_second,
            )
            &&& after == fewer_after
            &&& after.reported() == fewer_after.reported()
        }),
{
    let high = high_confidence(state, detections);
    let fewer = detections_at(detections, high);
    let columns = columns_at(overlaps, high);
    let first = state.first_pass(detections, overlaps);
    let second = state.second_pass(detections, overlaps);
    let fewer_first = state.first_pass(fewer, columns);
    lemma_first_pass_filtered(state, detections, overlaps);
    lemma_created_filtered(state, detections, fewer_first);
    assert(first + second =~= first);
    assert(fewer_first + second =~= fewer_first);
    let all = state.all_tracks(detections, first, second);
    let fewer_all = state.all_tracks(fewer, fewer_first, second);
    let created = state.created(fewer, fewer_first);
    assert(all =~= fewer_all) by {
        assert forall|k: int| 0 <= k < all.len() implies #[trigger] all[k] == fewer_all[k] by {
            if k < state.tracks.len() {
                lemma_detection_renumbered(fewer_first, high, k);
            } else {
                assert(created[k - state.tracks.len()] < high.len());
            }
        }
    }
}

} // verus!
