//! What holds of the tracker as a whole.

use crate::batch::{
    all_answered, answered, distinct_scenes, lemma_other_scenes, room_at, BatchState,
    SceneRequest, SceneUpdate,
};
use crate::binary64::Binary64;
use crate::confidence::SimpleSortConfidenceMode;
use crate::matrix::matrix;
use crate::select::{lemma_select, lemma_select_congruent};
use crate::track::{SimpleSortDetection, TrackRecord};
use crate::tracker::{
    detection_matched, lemma_detection_of, lemma_empty_frame, lemma_idle_adds, lemma_passes,
    track_matched, TrackerState,
};
use vstd::prelude::*;

verus! {

/// A tracker that is reset is a new tracker with the same settings.
pub proof fn lemma_reset_is_new(state: TrackerState, starting_id: u64)
    ensures
        state.restarted(starting_id) == TrackerState::fresh(
            state.max_age,
            state.min_hits,
            state.iou_threshold,
            starting_id,
            state.confidence_mode,
            state.high_confidence_threshold,
        ),
{
}

/// Where track `place` of after a frame comes from: its place among the tracks
/// of before, followed by those that the frame created.
pub open spec fn origin(
    state: TrackerState,
    detections: Seq<SimpleSortDetection>,
    first: Seq<(usize, usize)>,
    second: Seq<(usize, usize)>,
    place: int,
) -> int {
    state.kept(detections, first, second)[place] as int
}

/// After a frame, each track is one of before, with its identity, or one that
/// this frame created, with an identity not below the next one of before; the
/// tracks of before come first.
pub proof fn lemma_tracks_keep_identity(
    state: TrackerState,
    detections: Seq<SimpleSortDetection>,
    first: Seq<(usize, usize)>,
    second: Seq<(usize, usize)>,
    place: int,
)
    requires
        state.all_tracks(detections, first, second).len() <= usize::MAX,
        state.next_id + state.created(detections, first).len() <= u64::MAX,
        0 <= place < state.after_frame(detections, first, second).tracks.len(),
    ensures
        ({
            let after = state.after_frame(detections, first, second);
            let from = origin(state, detections, first, second, place);
            let old_count = state.tracks.len();
            &&& 0 <= from < old_count + state.created(detections, first).len()
            &&& from < old_count ==> after.tracks[place].id == state.tracks[from].id
            &&& from >= old_count ==> after.tracks[place].id == state.next_id + (from - old_count)
            &&& forall|other: int|
                place < other < after.tracks.len() ==> from < #[trigger] origin(
                    state,
                    detections,
                    first,
                    second,
                    other,
                )
        }),
{
    let all = state.all_tracks(detections, first, second);
    lemma_select(all.len(), |k: int| all[k].time_since_update <= state.max_age);
    let kept = state.kept(detections, first, second);
    assert(kept[place] < all.len());
}

/// Every live track is a frame older after a frame, whether or not it is
/// observed; a match counts as one detection and starts the time since the
/// last one again.
pub proof fn lemma_every_track_advances(
    state: TrackerState,
    detections: Seq<SimpleSortDetection>,
    first: Seq<(usize, usize)>,
    second: Seq<(usize, usize)>,
    place: int,
)
    requires
        state.wf(),
        state.all_tracks(detections, first, second).len() <= usize::MAX,
        state.counts_on(first + second),
        0 <= place < state.after_frame(detections, first, second).tracks.len(),
        origin(state, detections, first, second, place) < state.tracks.len(),
    ensures
        ({
            let from = origin(state, detections, first, second, place);
            let before = state.tracks[from];
            let after = state.after_frame(detections, first, second).tracks[place];
            let matched = track_matched(first + second, from);
            &&& 0 <= from
            &&& after.age == before.age + 1
            &&& matched ==> after.hits == before.hits + 1 && after.time_since_update == 0
            &&& !matched ==> after.hits == before.hits && after.time_since_update
                == before.time_since_update + 1 && after.confidence == before.confidence
        }),
{
    let all = state.all_tracks(detections, first, second);
    lemma_select(all.len(), |k: int| all[k].time_since_update <= state.max_age);
    let kept = state.kept(detections, first, second);
    assert(kept[place] < all.len());
    let from = kept[place] as int;
    lemma_detection_of(first + second, from);
    assert(state.tracks[from].age < usize::MAX && state.tracks[from].consistent());
}

/// A track is dropped exactly if it is not observed in a frame and was not
/// observed in the `max_age` frames before it.
pub proof fn lemma_dropped(
    state: TrackerState,
    detections: Seq<SimpleSortDetection>,
    first: Seq<(usize, usize)>,
    second: Seq<(usize, usize)>,
    track: int,
)
    requires
        state.wf(),
        state.all_tracks(detections, first, second).len() <= usize::MAX,
        0 <= track < state.tracks.len(),
        state.tracks[track].age < usize::MAX,
    ensures
        !state.kept(detections, first, second).contains(track as usize) <==> (!track_matched(
            first + second,
            track,
        ) && state.tracks[track].time_since_update >= state.max_age),
{
    let all = state.all_tracks(detections, first, second);
    let keep = |k: int| all[k].time_since_update <= state.max_age;
    let kept = state.kept(detections, first, second);
    lemma_select(all.len(), keep);
    lemma_detection_of(first + second, track);
    assert(state.tracks[track].consistent());
    if kept.contains(track as usize) {
        let k = choose|k: int| 0 <= k < kept.len() && kept[k] == track as usize;
        assert(keep(kept[k] as int));
    }
    if keep(track) {
        assert(kept.contains(track as usize));
    }
}

/// Every track that a frame creates is kept and reported in that frame, with
/// the next identities in turn and the confidence of its detection.
pub proof fn lemma_created_are_reported(
    state: TrackerState,
    detections: Seq<SimpleSortDetection>,
    first: Seq<(usize, usize)>,
    second: Seq<(usize, usize)>,
    k: int,
) -> (r: int)
    requires
        state.all_tracks(detections, first, second).len() <= usize::MAX,
        state.next_id + state.created(detections, first).len() <= u64::MAX,
        0 <= k < state.created(detections, first).len(),
    ensures
        ({
            let reported = state.after_frame(detections, first, second).reported();
            &&& 0 <= r < reported.len()
            &&& reported[r].id == state.next_id + k
            &&& reported[r].confidence == detections[state.created(
                detections,
                first,
            )[k] as int].confidence
        }),
{
    let all = state.all_tracks(detections, first, second);
    let after = state.after_frame(detections, first, second);
    let kept = state.kept(detections, first, second);
    let keep = |k: int| all[k].time_since_update <= state.max_age;
    let from = state.tracks.len() + k;
    lemma_select(all.len(), keep);
    assert(all[from].time_since_update == 0);
    assert(keep(from));
    let place = choose|p: int| 0 <= p < kept.len() && kept[p] == from as usize;
    assert(after.tracks[place] == all[from]);
    let report = |t: int| after.tracks[t].reportable(after.min_hits);
    lemma_select(after.tracks.len(), report);
    assert(report(place));
    let places = after.reported_places();
    let r = choose|r: int| 0 <= r < places.len() && places[r] == place as usize;
    assert(after.reported()[r] == all[from].outcome(place as usize));
    r
}

/// Reports name tracks by ascending places, and carry their identity and
/// confidence; the tracks are those to report.
pub proof fn lemma_reported(state: TrackerState)
    requires
        state.tracks.len() <= usize::MAX,
    ensures
        forall|i: int|
            0 <= i < state.reported().len() ==> {
                let report = #[trigger] state.reported()[i];
                let track = state.tracks[report.place as int];
                &&& report.place < state.tracks.len()
                &&& report.id == track.id
                &&& report.confidence == track.confidence
                &&& track.time_since_update == 0
                &&& track.hits >= state.min_hits || track.age < state.min_hits
            },
        forall|i: int, j: int|
            0 <= i < j < state.reported().len() ==> (#[trigger] state.reported()[i]).place < (
            #[trigger] state.reported()[j]).place,
{
    let report = |t: int| state.tracks[t].reportable(state.min_hits);
    let places = state.reported_places();
    lemma_select(state.tracks.len(), report);
    assert forall|i: int| 0 <= i < state.reported().len() implies {
        let report = #[trigger] state.reported()[i];
        let track = state.tracks[report.place as int];
        &&& report.place < state.tracks.len()
        &&& report.id == track.id
        &&& report.confidence == track.confidence
        &&& track.time_since_update == 0
        &&& track.hits >= state.min_hits || track.age < state.min_hits
    } by {
        assert(report(places[i] as int));
    }
}

/// No frame leaves more tracks than there are in all.
proof fn lemma_after_frame_length(
    state: TrackerState,
    detections: Seq<SimpleSortDetection>,
    first: Seq<(usize, usize)>,
    second: Seq<(usize, usize)>,
)
    requires
        state.all_tracks(detections, first, second).len() <= usize::MAX,
    ensures
        state.after_frame(detections, first, second).tracks.len() <= usize::MAX,
{
    let all = state.all_tracks(detections, first, second);
    lemma_select(all.len(), |k: int| all[k].time_since_update <= state.max_age);
}

/// Every reported track was observed in the frame: it is one that the frame
/// created, or one of before that was matched; and it has been observed often
/// enough, or is still young.
pub proof fn lemma_reported_are_observed(
    state: TrackerState,
    detections: Seq<SimpleSortDetection>,
    first: Seq<(usize, usize)>,
    second: Seq<(usize, usize)>,
    r: int,
)
    requires
        state.wf(),
        state.all_tracks(detections, first, second).len() <= usize::MAX,
        forall|t: int| 0 <= t < state.tracks.len() ==> (#[trigger] state.tracks[t]).age < usize::MAX,
        0 <= r < state.after_frame(detections, first, second).reported().len(),
    ensures
        ({
            let after = state.after_frame(detections, first, second);
            let report = after.reported()[r];
            let from = origin(state, detections, first, second, report.place as int);
            let track = after.tracks[report.place as int];
            &&& report.place < after.tracks.len()
            &&& report.id == track.id
            &&& report.confidence == track.confidence
            &&& from >= state.tracks.len() || track_matched(first + second, from)
            &&& track.hits >= state.min_hits || track.age < state.min_hits
        }),
{
    let all = state.all_tracks(detections, first, second);
    let after = state.after_frame(detections, first, second);
    let kept = state.kept(detections, first, second);
    lemma_select(all.len(), |k: int| all[k].time_since_update <= state.max_age);
    lemma_reported(after);
    let place = after.reported()[r].place as int;
    let from = kept[place] as int;
    assert(after.tracks[place] == all[from]);
    if from < state.tracks.len() {
        lemma_detection_of(first + second, from);
        assert(state.tracks[from].age < usize::MAX && state.tracks[from].consistent());
    }
}

/// A detection below the high-confidence threshold never creates a track,
/// unless every detection may.
pub proof fn lemma_low_confidence_never_creates(
    state: TrackerState,
    detections: Seq<SimpleSortDetection>,
    first: Seq<(usize, usize)>,
    k: int,
)
    requires
        state.confidence_mode != SimpleSortConfidenceMode::All,
        detections.len() <= usize::MAX,
        0 <= k < state.created(detections, first).len(),
    ensures
        state.created(detections, first)[k] < detections.len(),
        detections[state.created(detections, first)[k] as int].confidence.at_least(
            state.high_confidence_threshold,
        ),
{
    let keep = |d: int| state.is_primary(detections[d]) && !detection_matched(first, d);
    lemma_select(detections.len(), keep);
    assert(keep(state.created(detections, first)[k] as int));
}

/// Where only high-confidence detections are used, the others match no track
/// either.
pub proof fn lemma_high_only_ignores_low_confidence(
    state: TrackerState,
    detections: Seq<SimpleSortDetection>,
    overlaps: Seq<Seq<Binary64>>,
    first: Seq<(usize, usize)>,
    second: Seq<(usize, usize)>,
    d: int,
)
    requires
        state.confidence_mode == SimpleSortConfidenceMode::HighOnly,
        state.tracks.len() <= usize::MAX,
        detections.len() <= usize::MAX,
        state.associates(detections, overlaps, first, second),
        0 <= d < detections.len(),
        !detections[d].confidence.at_least(state.high_confidence_threshold),
    ensures
        !detection_matched(first + second, d),
        !state.created(detections, first).contains(d as usize),
{
    lemma_passes(state, detections, overlaps, first, second);
    assert(first + second =~= first);
    if detection_matched(first, d) {
        let k = choose|k: int| 0 <= k < first.len() && (#[trigger] first[k]).1 == d;
        assert(state.is_primary(detections[first[k].1 as int]));
    }
    if state.created(detections, first).contains(d as usize) {
        let k = choose|k: int|
            0 <= k < state.created(detections, first).len() && state.created(detections, first)[k]
                == d as usize;
        lemma_low_confidence_never_creates(state, detections, first, k);
    }
}

/// Two trackers that differ in the confidences of their tracks at most.
pub open spec fn same_but_confidence(a: TrackerState, b: TrackerState) -> bool {
    &&& a.max_age == b.max_age
    &&& a.min_hits == b.min_hits
    &&& a.iou_threshold == b.iou_threshold
    &&& a.confidence_mode == b.confidence_mode
    &&& a.high_confidence_threshold == b.high_confidence_threshold
    &&& a.next_id == b.next_id
    &&& a.tracks.len() == b.tracks.len()
    &&& forall|t: int|
        0 <= t < a.tracks.len() ==> (#[trigger] a.tracks[t]) == (TrackRecord {
            confidence: a.tracks[t].confidence,
            ..b.tracks[t]
        })
}

/// Two detections are used alike: their confidences are on the same side of
/// the high-confidence threshold, unless the mode uses every detection.
pub open spec fn used_alike(
    state: TrackerState,
    a: SimpleSortDetection,
    b: SimpleSortDetection,
) -> bool {
    state.confidence_mode == SimpleSortConfidenceMode::All || a.confidence.at_least(
        state.high_confidence_threshold,
    ) == b.confidence.at_least(state.high_confidence_threshold)
}

/// Confidence does not affect association: two frames with the same overlaps
/// whose detections are used alike, whatever their confidences, have the same
/// matches, create and keep the same tracks, report the same places, and leave
/// trackers that differ in the confidences of their tracks at most.
pub proof fn lemma_confidence_irrelevant(
    a: TrackerState,
    b: TrackerState,
    detections: Seq<SimpleSortDetection>,
    others: Seq<SimpleSortDetection>,
    overlaps: Seq<Seq<Binary64>>,
)
    requires
        same_but_confidence(a, b),
        detections.len() == others.len(),
        forall|d: int|
            0 <= d < detections.len() ==> used_alike(a, #[trigger] detections[d], others[d]),
        a.all_tracks(
            detections,
            a.first_pass(detections, overlaps),
            a.second_pass(detections, overlaps),
        ).len() <= usize::MAX,
    ensures
        ({
            let first = a.first_pass(detections, overlaps);
            let second = a.second_pass(detections, overlaps);
            let after = a.after_frame(detections, first, second);
            let after_b = b.after_frame(others, first, second);
            &&& b.first_pass(others, overlaps) == first
            &&& b.second_pass(others, overlaps) == second
            &&& a.created(detections, first) == b.created(others, first)
            &&& a.kept(detections, first, second) == b.kept(others, first, second)
            &&& same_but_confidence(after, after_b)
            &&& after.reported_places() == after_b.reported_places()
        }),
{
    let first = a.first_pass(detections, overlaps);
    let second = a.second_pass(detections, overlaps);
    assert forall|d: int| 0 <= d < detections.len() implies a.is_primary(#[trigger] detections[d])
        == b.is_primary(others[d]) && a.is_secondary(detections[d]) == b.is_secondary(
        others[d],
    ) by {
        assert(used_alike(a, detections[d], others[d]));
    }
    lemma_select_congruent(
        detections.len(),
        |d: int| a.is_primary(detections[d]),
        |d: int| b.is_primary(others[d]),
    );
    lemma_select_congruent(
        detections.len(),
        |d: int| a.is_secondary(detections[d]),
        |d: int| b.is_secondary(others[d]),
    );
    lemma_select_congruent(
        detections.len(),
        |d: int| a.is_primary(detections[d]) && !detection_matched(first, d),
        |d: int| b.is_primary(others[d]) && !detection_matched(first, d),
    );
    assert(a.created(detections, first) == b.created(others, first));
    let all = a.all_tracks(detections, first, second);
    let all_b = b.all_tracks(others, first, second);
    assert(all.len() == all_b.len());
    assert forall|k: int| 0 <= k < all.len() implies (#[trigger] all[k]) == (TrackRecord {
        confidence: all[k].confidence,
        ..all_b[k]
    }) by {
        if k < a.tracks.len() {
            assert(a.tracks[k] == (TrackRecord {
                confidence: a.tracks[k].confidence,
                ..b.tracks[k]
            }));
        }
    }
    lemma_select_congruent(
        all.len(),
        |k: int| all[k].time_since_update <= a.max_age,
        |k: int| all_b[k].time_since_update <= b.max_age,
    );
    lemma_select(all.len(), |k: int| all[k].time_since_update <= a.max_age);
    let kept = a.kept(detections, first, second);
    let after = a.after_frame(detections, first, second);
    let after_b = b.after_frame(others, first, second);
    assert(kept == b.kept(others, first, second));
    assert forall|t: int| 0 <= t < after.tracks.len() implies (#[trigger] after.tracks[t]) == (
    TrackRecord { confidence: after.tracks[t].confidence, ..after_b.tracks[t] }) by {
        assert(kept[t] < all.len());
        assert(after.tracks[t] == all[kept[t] as int]);
        assert(after_b.tracks[t] == all_b[kept[t] as int]);
    }
    assert forall|t: int| 0 <= t < after.tracks.len() implies (
    #[trigger] after.tracks[t]).reportable(after.min_hits) == after_b.tracks[t].reportable(
        after_b.min_hits,
    ) by {}
    lemma_select_congruent(
        after.tracks.len(),
        |t: int| after.tracks[t].reportable(after.min_hits),
        |t: int| after_b.tracks[t].reportable(after_b.min_hits),
    );
}

/// `frames` frames without detections leave exactly the tracks that were
/// observed in the last `max_age` frames.
pub proof fn lemma_expiry(state: TrackerState, frames: nat, track: int)
    requires
        state.tracks.len() <= usize::MAX,
        0 <= track < state.tracks.len(),
    ensures
        state.idle_places(frames).contains(track as usize) <==> state.tracks[track].time_since_update
            + frames <= state.max_age,
{
    let keep = |t: int| state.tracks[t].time_since_update + frames <= state.max_age;
    lemma_select(state.tracks.len(), keep);
    let places = state.idle_places(frames);
    if places.contains(track as usize) {
        let k = choose|k: int| 0 <= k < places.len() && places[k] == track as usize;
        assert(keep(places[k] as int));
    }
    if keep(track) {
        assert(places.contains(track as usize));
    }
}

/// More than `max_age` frames without detections leave no track.
pub proof fn lemma_all_expire(state: TrackerState, frames: nat)
    requires
        state.tracks.len() <= usize::MAX,
        frames > state.max_age,
    ensures
        state.idle(frames).tracks.len() == 0,
{
    let keep = |t: int| state.tracks[t].time_since_update + frames <= state.max_age;
    lemma_select(state.tracks.len(), keep);
    let places = state.idle_places(frames);
    if places.len() > 0 {
        assert(keep(places[0] as int));
    }
}

/// No identity is in use twice, and none from `next_id` on.
pub open spec fn ids_unique(tracks: Seq<TrackRecord>, next_id: u64) -> bool {
    &&& forall|i: int| 0 <= i < tracks.len() ==> (#[trigger] tracks[i]).id < next_id
    &&& forall|i: int, j: int|
        0 <= i < j < tracks.len() ==> (#[trigger] tracks[i]).id != (#[trigger] tracks[j]).id
}

/// A frame keeps identities unique.
pub proof fn lemma_ids_unique(
    state: TrackerState,
    detections: Seq<SimpleSortDetection>,
    first: Seq<(usize, usize)>,
    second: Seq<(usize, usize)>,
)
    requires
        ids_unique(state.tracks, state.next_id),
        state.all_tracks(detections, first, second).len() <= usize::MAX,
        state.next_id + state.created(detections, first).len() <= u64::MAX,
    ensures
        ({
            let after = state.after_frame(detections, first, second);
            ids_unique(after.tracks, after.next_id)
        }),
{
    let after = state.after_frame(detections, first, second);
    assert forall|i: int| 0 <= i < after.tracks.len() implies (#[trigger] after.tracks[i]).id
        < after.next_id by {
        lemma_tracks_keep_identity(state, detections, first, second, i);
        let from = origin(state, detections, first, second, i);
        if from < state.tracks.len() {
            assert(state.tracks[from].id < state.next_id);
        }
    }
    assert forall|i: int, j: int| 0 <= i < j < after.tracks.len() implies (
    #[trigger] after.tracks[i]).id != (#[trigger] after.tracks[j]).id by {
        lemma_tracks_keep_identity(state, detections, first, second, i);
        lemma_tracks_keep_identity(state, detections, first, second, j);
        let a = origin(state, detections, first, second, i);
        let b = origin(state, detections, first, second, j);
        assert(a < b);
        if a < state.tracks.len() {
            assert(state.tracks[a].id < state.next_id);
        }
        if b < state.tracks.len() {
            assert(state.tracks[a].id != state.tracks[b].id);
        }
    }
}

/// No identity is in use twice, within a scene or in two scenes, and none from
/// the next identity on.
pub open spec fn batch_ids_unique(batch: BatchState) -> bool {
    &&& forall|scene: u64| #[trigger] ids_unique(batch.tracks(scene), batch.next_id)
    &&& forall|a: u64, b: u64, i: int, j: int|
        a != b && 0 <= i < batch.tracks(a).len() && 0 <= j < batch.tracks(b).len() ==> (
        #[trigger] batch.tracks(a)[i]).id != (#[trigger] batch.tracks(b)[j]).id
}

/// A batch without scenes has no identities in use.
pub proof fn lemma_new_batch_ids_unique(batch: BatchState)
    requires
        batch.trackers == Map::<u64, TrackerState>::empty(),
    ensures
        batch_ids_unique(batch),
{
}

/// A frame of one scene keeps identities unique in all scenes.
pub proof fn lemma_scene_ids_unique(
    batch: BatchState,
    scene: u64,
    detections: Seq<SimpleSortDetection>,
    first: Seq<(usize, usize)>,
    second: Seq<(usize, usize)>,
)
    requires
        batch_ids_unique(batch),
        batch.tracker(scene).all_tracks(detections, first, second).len() <= usize::MAX,
        batch.next_id + batch.tracker(scene).created(detections, first).len() <= u64::MAX,
    ensures
        batch_ids_unique(batch.after_scene(scene, detections, first, second)),
{
    let state = batch.tracker(scene);
    let after = batch.after_scene(scene, detections, first, second);
    let moved = state.after_frame(detections, first, second);
    assert(ids_unique(batch.tracks(scene), batch.next_id));
    lemma_ids_unique(state, detections, first, second);
    assert(after.tracks(scene) == moved.tracks);
    assert forall|other: u64| #[trigger] ids_unique(after.tracks(other), after.next_id) by {
        if other != scene {
            assert(after.tracks(other) == batch.tracks(other));
            assert(ids_unique(batch.tracks(other), batch.next_id));
        }
    }
    assert forall|a: u64, b: u64, i: int, j: int|
        a != b && 0 <= i < after.tracks(a).len() && 0 <= j < after.tracks(b).len() implies (
    #[trigger] after.tracks(a)[i]).id != (#[trigger] after.tracks(b)[j]).id by {
        if a != scene && b != scene {
            assert(batch.tracks(a)[i].id != batch.tracks(b)[j].id);
        } else {
            let (other, k, place) = if a == scene {
                (b, j, i)
            } else {
                (a, i, j)
            };
            assert(after.tracks(other) == batch.tracks(other));
            lemma_tracks_keep_identity(state, detections, first, second, place);
            let from = origin(state, detections, first, second, place);
            assert(ids_unique(batch.tracks(other), batch.next_id));
            assert(batch.tracks(other)[k].id < batch.next_id);
            if from < state.tracks.len() {
                assert(batch.tracks(scene)[from].id != batch.tracks(other)[k].id);
            }
        }
    }
}

/// A batch request keeps identities unique in all scenes.
pub proof fn lemma_requests_ids_unique(
    batch: BatchState,
    requests: Seq<SceneRequest>,
    updates: Seq<SceneUpdate>,
    count: nat,
)
    requires
        batch_ids_unique(batch),
        batch.has_room(requests),
        count <= updates.len() <= requests.len(),
        all_answered(batch, requests, updates),
    ensures
        batch_ids_unique(batch.after_requests(requests, count)),
    decreases count,
{
    if count > 0 {
        let k = count - 1;
        lemma_requests_ids_unique(batch, requests, updates, k as nat);
        assert(answered(batch, requests, updates, k));
        let before = batch.after_requests(requests, k as nat);
        assert(room_at(batch, requests, k));
        lemma_scene_ids_unique(
            before,
            requests[k].scene_id,
            requests[k].detections@,
            updates[k].frame.first_matches@,
            updates[k].frame.second_matches@,
        );
    }
}

/// Skipped frames keep identities unique in all scenes.
pub proof fn lemma_skip_ids_unique(batch: BatchState, scene: u64, frames: nat)
    requires
        batch_ids_unique(batch),
        batch.tracks(scene).len() <= usize::MAX,
    ensures
        batch_ids_unique(batch.after_skip(scene, frames)),
{
    let after = batch.after_skip(scene, frames);
    if batch.trackers.contains_key(scene) {
        let state = batch.trackers[scene];
        let places = state.idle_places(frames);
        lemma_select(
            state.tracks.len(),
            |t: int| state.tracks[t].time_since_update + frames <= state.max_age,
        );
        assert(ids_unique(batch.tracks(scene), batch.next_id));
        assert forall|i: int| 0 <= i < after.tracks(scene).len() implies (
        #[trigger] after.tracks(scene)[i]).id == batch.tracks(scene)[places[i] as int].id
            && 0 <= places[i] < batch.tracks(scene).len() by {}
        assert forall|other: u64| #[trigger] ids_unique(after.tracks(other), after.next_id) by {
            assert(ids_unique(batch.tracks(other), batch.next_id));
            if other == scene {
                assert forall|i: int, j: int| 0 <= i < j < after.tracks(scene).len() implies (
                #[trigger] after.tracks(scene)[i]).id != (
                #[trigger] after.tracks(scene)[j]).id by {
                    assert(places[i] < places[j]);
                    assert(batch.tracks(scene)[places[i] as int].id
                        != batch.tracks(scene)[places[j] as int].id);
                }
            }
        }
        assert forall|a: u64, b: u64, i: int, j: int|
            a != b && 0 <= i < after.tracks(a).len() && 0 <= j < after.tracks(b).len() implies (
        #[trigger] after.tracks(a)[i]).id != (#[trigger] after.tracks(b)[j]).id by {
            let i0 = if a == scene {
                places[i] as int
            } else {
                i
            };
            let j0 = if b == scene {
                places[j] as int
            } else {
                j
            };
            assert(after.tracks(a)[i].id == batch.tracks(a)[i0].id);
            assert(after.tracks(b)[j].id == batch.tracks(b)[j0].id);
        }
    } else {
        assert forall|other: u64| #[trigger] ids_unique(after.tracks(other), after.next_id) by {
            assert(ids_unique(batch.tracks(other), batch.next_id));
            assert(after.tracks(other) == batch.tracks(other));
        }
        assert forall|a: u64, b: u64, i: int, j: int|
            a != b && 0 <= i < after.tracks(a).len() && 0 <= j < after.tracks(b).len() implies (
        #[trigger] after.tracks(a)[i]).id != (#[trigger] after.tracks(b)[j]).id by {
            assert(batch.tracks(a)[i].id != batch.tracks(b)[j].id);
        }
    }
}

/// After a batch request, the tracks of a requested scene are those that its
/// own frame left.
pub proof fn lemma_requested_scene(
    batch: BatchState,
    requests: Seq<SceneRequest>,
    count: nat,
    k: int,
)
    requires
        distinct_scenes(requests),
        0 <= k < count <= requests.len(),
    ensures
        ({
            let scene = requests[k].scene_id;
            let before = batch.after_requests(requests, k as nat);
            let after = batch.after_requests(requests, count);
            &&& before.tracks(scene) == batch.tracks(scene)
            &&& after.tracks(scene) == before.after_request(requests[k]).tracks(scene)
            &&& after.epoch(scene) == (batch.epoch(scene) + 1) as usize
        }),
    decreases count,
{
    let scene = requests[k].scene_id;
    assert forall|l: int| 0 <= l < k implies (#[trigger] requests[l]).scene_id != scene by {
        assert(requests[k].scene_id == scene);
    }
    lemma_other_scenes(batch, requests, k as nat, scene);
    if k < count - 1 {
        lemma_requested_scene(batch, requests, (count - 1) as nat, k);
        assert(requests[count - 1].scene_id != requests[k].scene_id);
    }
}

/// The tracks that one batch request reports, in whatever order its scenes are
/// processed, have identities that are all different.
pub proof fn lemma_reported_ids_unique(
    batch: BatchState,
    requests: Seq<SceneRequest>,
    updates: Seq<SceneUpdate>,
    k: int,
    l: int,
    i: int,
    j: int,
)
    requires
        batch_ids_unique(batch),
        batch.has_room(requests),
        distinct_scenes(requests),
        updates.len() == requests.len(),
        all_answered(batch, requests, updates),
        0 <= k < updates.len(),
        0 <= l < updates.len(),
        0 <= i < updates[k].frame.reported@.len(),
        0 <= j < updates[l].frame.reported@.len(),
        k != l || i != j,
    ensures
        updates[k].frame.reported@[i].id != updates[l].frame.reported@[j].id,
{
    let after = batch.after_requests(requests, requests.len());
    lemma_requests_ids_unique(batch, requests, updates, requests.len());
    let a = updates[k].frame.reported@[i].place as int;
    let b = updates[l].frame.reported@[j].place as int;
    lemma_request_reports(batch, requests, updates, k);
    lemma_request_reports(batch, requests, updates, l);
    let (s, t) = (requests[k].scene_id, requests[l].scene_id);
    assert(ids_unique(after.tracks(s), after.next_id));
    if k == l {
        if i < j {
            assert(after.tracks(s)[a].id != after.tracks(s)[b].id);
        } else {
            assert(after.tracks(s)[b].id != after.tracks(s)[a].id);
        }
    } else {
        assert(s != t) by {
            if k < l {
                assert(requests[k].scene_id != requests[l].scene_id);
            } else {
                assert(requests[l].scene_id != requests[k].scene_id);
            }
        }
        assert(after.tracks(s)[a].id != after.tracks(t)[b].id);
    }
}

/// The reports of a request name tracks of its scene as all the requests leave
/// them, by ascending places.
proof fn lemma_request_reports(
    batch: BatchState,
    requests: Seq<SceneRequest>,
    updates: Seq<SceneUpdate>,
    k: int,
)
    requires
        distinct_scenes(requests),
        updates.len() == requests.len(),
        all_answered(batch, requests, updates),
        0 <= k < updates.len(),
    ensures
        ({
            let tracks = batch.after_requests(requests, requests.len()).tracks(
                requests[k].scene_id,
            );
            let reported = updates[k].frame.reported@;
            &&& forall|i: int|
                0 <= i < reported.len() ==> (#[trigger] reported[i]).place < tracks.len()
                    && tracks[reported[i].place as int].id == reported[i].id
            &&& forall|i: int, j: int|
                0 <= i < j < reported.len() ==> (#[trigger] reported[i]).place < (
                #[trigger] reported[j]).place
        }),
{
    lemma_requested_scene(batch, requests, requests.len(), k);
    assert(answered(batch, requests, updates, k));
    let state = batch.after_requests(requests, k as nat).tracker(requests[k].scene_id);
    let detections = requests[k].detections@;
    let first = updates[k].frame.first_matches@;
    let second = updates[k].frame.second_matches@;
    lemma_after_frame_length(state, detections, first, second);
    lemma_reported(state.after_frame(detections, first, second));
}

/// Skipping `a` frames of a scene and then `b` frames is skipping `a + b`.
pub proof fn lemma_skip_adds(batch: BatchState, scene: u64, a: nat, b: nat)
    requires
        batch.wf(),
        batch.epoch(scene) + a + b <= usize::MAX,
    ensures
        batch.after_skip(scene, a).after_skip(scene, b) == batch.after_skip(scene, a + b),
{
    if batch.trackers.contains_key(scene) {
        let state = batch.trackers[scene];
        assert forall|t: int| 0 <= t < state.tracks.len() implies (#[trigger] state.tracks[t]).age
            + (a + b) <= usize::MAX by {
            assert(state.tracks[t].age < batch.epoch(scene));
        }
        lemma_idle_adds(state, a, b);
    }
    assert(batch.after_skip(scene, a).after_skip(scene, b) =~= batch.after_skip(scene, a + b));
}

/// Skipping a frame of a scene does to its tracks, its frame count and the
/// identities what a request without detections does.
pub proof fn lemma_skip_is_empty_request(batch: BatchState, request: SceneRequest)
    requires
        batch.wf(),
        batch.thresholds_valid(),
        request.detections@.len() == 0,
        batch.epoch(request.scene_id) < usize::MAX,
    ensures
        ({
            let scene = request.scene_id;
            let skipped = batch.after_skip(scene, 1);
            let answered = batch.after_request(request);
            &&& skipped.tracks(scene) == answered.tracks(scene)
            &&& skipped.epoch(scene) == answered.epoch(scene)
            &&& skipped.next_id == answered.next_id
        }),
{
    let scene = request.scene_id;
    let state = batch.tracker(scene);
    assert(request.detections@ =~= Seq::empty());
    assert forall|t: int| 0 <= t < state.tracks.len() implies (#[trigger] state.tracks[t]).age + 1
        <= usize::MAX by {
        assert(batch.trackers.contains_key(scene));
        assert(batch.trackers[scene].tracks[t].age < batch.epoch(scene));
    }
    lemma_empty_frame(state, matrix(request.overlaps@));
    if batch.trackers.contains_key(scene) {
        let held = batch.trackers[scene];
        lemma_select_congruent(
            state.tracks.len(),
            |t: int| held.tracks[t].time_since_update + 1 <= held.max_age,
            |t: int| state.tracks[t].time_since_update + 1 <= state.max_age,
        );
        assert(held.idle(1).tracks =~= state.idle(1).tracks);
    } else {
        assert(state.idle(1).tracks =~= Seq::empty());
    }
}

/// Frames of one scene, skipped or not, leave the tracks and the frame count
/// of every other scene as they are.
pub proof fn lemma_scenes_independent(
    batch: BatchState,
    scene: u64,
    detections: Seq<SimpleSortDetection>,
    first: Seq<(usize, usize)>,
    second: Seq<(usize, usize)>,
    frames: nat,
    other: u64,
)
    requires
        other != scene,
    ensures
        batch.after_scene(scene, detections, first, second).tracks(other) == batch.tracks(other),
        batch.after_scene(scene, detections, first, second).epoch(other) == batch.epoch(other),
        batch.after_skip(scene, frames).tracks(other) == batch.tracks(other),
        batch.after_skip(scene, frames).epoch(other) == batch.epoch(other),
{
}

} // verus!
