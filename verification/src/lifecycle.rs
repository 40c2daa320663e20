//! What becomes of each track: its counters, its confidence and its identity,
//! whether it lives on, and whether it is reported.

use crate::binary64::Binary64;
use crate::confidence::SimpleSortConfidenceMode;
use crate::select::lemma_select;
use crate::track::{SimpleSortDetection, TrackRecord};
use crate::tracker::{detection_matched, lemma_detection_of, track_matched, TrackerState};
use vstd::prelude::*;

verus! {

/// A detection creates a track if and only if it is accepted at once (every
/// detection in mode `All`, those that reach the high-confidence threshold in
/// the other modes) and no match of the first pass holds it. Tracks are created
/// in the order of the detections.
pub proof fn lemma_created_exactly(
    state: TrackerState,
    detections: Seq<SimpleSortDetection>,
    first: Seq<(usize, usize)>,
    d: usize,
)
    requires
        detections.len() <= usize::MAX,
    ensures
        state.created(detections, first).contains(d) <==> {
            &&& d < detections.len()
            &&& state.confidence_mode == SimpleSortConfidenceMode::All
                || detections[d as int].confidence.at_least(state.high_confidence_threshold)
            &&& forall|k: int| 0 <= k < first.len() ==> (#[trigger] first[k]).1 != d
        },
        forall|k: int, l: int|
            0 <= k < l < state.created(detections, first).len() ==> #[trigger] state.created(
                detections,
                first,
            )[k] < #[trigger] state.created(detections, first)[l],
{
    let keep = |d: int| state.is_primary(detections[d]) && !detection_matched(first, d);
    let created = state.created(detections, first);
    lemma_select(detections.len(), keep);
    if created.contains(d) {
        let k = choose|k: int| 0 <= k < created.len() && created[k] == d;
        assert(keep(created[k] as int));
        assert forall|k: int| 0 <= k < first.len() implies (#[trigger] first[k]).1 != d by {
            assert(!detection_matched(first, d as int));
        }
    }
    if d < detections.len() && state.is_primary(detections[d as int]) && forall|k: int|
        0 <= k < first.len() ==> (#[trigger] first[k]).1 != d {
        assert(!detection_matched(first, d as int)) by {
            if detection_matched(first, d as int) {
                let k = choose|k: int| 0 <= k < first.len() && (#[trigger] first[k]).1 == d as int;
                assert(first[k].1 == d);
            }
        }
        assert(keep(d as int));
        assert(created.contains(d as int as usize));
    }
}

/// Where track or detection `k` of all stands after the frame.
proof fn lemma_place_of(
    state: TrackerState,
    detections: Seq<SimpleSortDetection>,
    first: Seq<(usize, usize)>,
    second: Seq<(usize, usize)>,
    k: int,
) -> (place: int)
    requires
        state.tracks.len() + state.created(detections, first).len() <= usize::MAX,
        0 <= k < state.all_tracks(detections, first, second).len(),
    ensures
        ({
            let all = state.all_tracks(detections, first, second);
            let kept = state.kept(detections, first, second);
            let after = state.after_frame(detections, first, second);
            &&& all[k].time_since_update <= state.max_age ==> {
                &&& 0 <= place < after.tracks.len()
                &&& place < kept.len()
                &&& kept[place] == k
                &&& after.tracks[place] == all[k]
            }
            &&& all[k].time_since_update > state.max_age ==> !kept.contains(k as usize)
        }),
{
    let all = state.all_tracks(detections, first, second);
    let keep = |k: int| all[k].time_since_update <= state.max_age;
    let kept = state.kept(detections, first, second);
    assert(all.len() == state.tracks.len() + state.created(detections, first).len());
    lemma_select(all.len(), keep);
    if keep(k) {
        assert(kept.contains(k as usize));
        choose|p: int| 0 <= p < kept.len() && kept[p] == k as usize
    } else {
        if kept.contains(k as usize) {
            let p = choose|p: int| 0 <= p < kept.len() && kept[p] == k as usize;
            assert(keep(kept[p] as int));
        }
        0
    }
}

/// A matched track lives on, a frame older, with one detection more, the
/// confidence of that detection, and its identity.
pub proof fn lemma_matched_track(
    state: TrackerState,
    detections: Seq<SimpleSortDetection>,
    first: Seq<(usize, usize)>,
    second: Seq<(usize, usize)>,
    k: int,
) -> (place: int)
    requires
        state.tracks.len() + state.created(detections, first).len() <= usize::MAX,
        0 <= k < (first + second).len(),
        (first + second)[k].0 < state.tracks.len(),
        forall|l: int|
            0 <= l < (first + second).len() && l != k ==> (#[trigger] (first + second)[l]).0 != (
            first + second)[k].0,
        state.tracks[(first + second)[k].0 as int].age < usize::MAX,
        state.tracks[(first + second)[k].0 as int].hits < usize::MAX,
    ensures
        ({
            let (track, detection) = (first + second)[k];
            let before = state.tracks[track as int];
            let after = state.after_frame(detections, first, second);
            let kept = state.kept(detections, first, second);
            &&& 0 <= place < after.tracks.len()
            &&& place < kept.len()
            &&& kept[place] == track
            &&& after.tracks[place] == (TrackRecord {
                id: before.id,
                confidence: detections[detection as int].confidence,
                hits: (before.hits + 1) as usize,
                age: (before.age + 1) as usize,
                time_since_update: 0,
            })
        }),
{
    let both = first + second;
    let track = both[k].0 as int;
    lemma_detection_of(both, track);
    assert(both[k].0 == track);
    lemma_place_of(state, detections, first, second, track)
}

/// A track that is not matched lives on, a frame older, if it was observed in
/// the last `max_age` frames, and is dropped otherwise.
pub proof fn lemma_unmatched_track(
    state: TrackerState,
    detections: Seq<SimpleSortDetection>,
    first: Seq<(usize, usize)>,
    second: Seq<(usize, usize)>,
    track: int,
) -> (place: int)
    requires
        state.tracks.len() + state.created(detections, first).len() <= usize::MAX,
        0 <= track < state.tracks.len(),
        forall|l: int|
            0 <= l < (first + second).len() ==> (#[trigger] (first + second)[l]).0 != track,
        state.tracks[track].age < usize::MAX,
        state.tracks[track].time_since_update < usize::MAX,
    ensures
        ({
            let before = state.tracks[track];
            let after = state.after_frame(detections, first, second);
            let kept = state.kept(detections, first, second);
            &&& before.time_since_update < state.max_age ==> {
                &&& 0 <= place < after.tracks.len()
                &&& place < kept.len()
                &&& kept[place] == track
                &&& after.tracks[place] == (TrackRecord {
                    id: before.id,
                    confidence: before.confidence,
                    hits: before.hits,
                    age: (before.age + 1) as usize,
                    time_since_update: (before.time_since_update + 1) as usize,
                })
            }
            &&& before.time_since_update >= state.max_age ==> !kept.contains(track as usize)
        }),
{
    let both = first + second;
    lemma_detection_of(both, track);
    assert(!track_matched(both, track));
    lemma_place_of(state, detections, first, second, track)
}

/// A created track lives, with the next identity in turn, the confidence of its
/// detection, and one detection, just now.
pub proof fn lemma_created_track(
    state: TrackerState,
    detections: Seq<SimpleSortDetection>,
    first: Seq<(usize, usize)>,
    second: Seq<(usize, usize)>,
    k: int,
) -> (place: int)
    requires
        state.tracks.len() + state.created(detections, first).len() <= usize::MAX,
        state.next_id + state.created(detections, first).len() <= u64::MAX,
        0 <= k < state.created(detections, first).len(),
    ensures
        ({
            let detection = state.created(detections, first)[k];
            let after = state.after_frame(detections, first, second);
            let kept = state.kept(detections, first, second);
            &&& 0 <= place < after.tracks.len()
            &&& place < kept.len()
            &&& kept[place] == state.tracks.len() + k
            &&& after.tracks[place] == (TrackRecord {
                id: (state.next_id + k) as u64,
                confidence: detections[detection as int].confidence,
                hits: 1,
                age: 0,
                time_since_update: 0,
            })
        }),
{
    let all = state.all_tracks(detections, first, second);
    assert(all[state.tracks.len() + k].time_since_update == 0);
    lemma_place_of(state, detections, first, second, state.tracks.len() + k)
}

/// After a frame there is nothing but the tracks that are kept, those of before
/// first and then the created ones, in order; the next identity has moved on by
/// the created tracks, and the settings are those of before.
pub proof fn lemma_nothing_else(
    state: TrackerState,
    detections: Seq<SimpleSortDetection>,
    first: Seq<(usize, usize)>,
    second: Seq<(usize, usize)>,
)
    requires
        state.tracks.len() + state.created(detections, first).len() <= usize::MAX,
        state.next_id + state.created(detections, first).len() <= u64::MAX,
    ensures
        ({
            let created = state.created(detections, first);
            let kept = state.kept(detections, first, second);
            let after = state.after_frame(detections, first, second);
            &&& after.tracks.len() == kept.len()
            &&& forall|p: int|
                0 <= p < kept.len() ==> (#[trigger] kept[p]) < state.tracks.len() + created.len()
            &&& forall|p: int, q: int|
                0 <= p < q < kept.len() ==> #[trigger] kept[p] < #[trigger] kept[q]
            &&& after.next_id == state.next_id + created.len()
            &&& after.max_age == state.max_age
            &&& after.min_hits == state.min_hits
            &&& after.iou_threshold == state.iou_threshold
            &&& after.confidence_mode == state.confidence_mode
            &&& after.high_confidence_threshold == state.high_confidence_threshold
        }),
{
    let all = state.all_tracks(detections, first, second);
    assert(all.len() == state.tracks.len() + state.created(detections, first).len());
    lemma_select(all.len(), |k: int| all[k].time_since_update <= state.max_age);
}

/// A track is reported if and only if it was observed in this frame and has
/// been observed at least `min_hits` times or is younger than `min_hits`
/// frames.
pub proof fn lemma_reported_exactly(state: TrackerState, place: int)
    requires
        state.tracks.len() <= usize::MAX,
        0 <= place < state.tracks.len(),
    ensures
        (exists|r: int|
            0 <= r < state.reported().len() && (#[trigger] state.reported()[r]).place == place)
            <==> state.tracks[place].time_since_update == 0 && (state.tracks[place].hits
            >= state.min_hits || state.tracks[place].age < state.min_hits),
{
    let keep = |t: int| state.tracks[t].reportable(state.min_hits);
    let places = state.reported_places();
    lemma_select(state.tracks.len(), keep);
    if exists|r: int|
        0 <= r < state.reported().len() && (#[trigger] state.reported()[r]).place == place {
        let r = choose|r: int|
            0 <= r < state.reported().len() && (#[trigger] state.reported()[r]).place == place;
        assert(keep(places[r] as int));
    }
    if keep(place) {
        assert(places.contains(place as usize));
        let r = choose|r: int| 0 <= r < places.len() && places[r] == place as usize;
        assert(state.reported()[r].place == place);
    }
}

/// A report gives the identity and the confidence of the track at its place,
/// and the reports stand in the order of the tracks.
pub proof fn lemma_report_of_track(state: TrackerState, r: int)
    requires
        state.tracks.len() <= usize::MAX,
        0 <= r < state.reported().len(),
    ensures
        state.reported()[r].place < state.tracks.len(),
        state.reported()[r].id == state.tracks[state.reported()[r].place as int].id,
        state.reported()[r].confidence == state.tracks[state.reported()[r].place as int].confidence,
        forall|s: int|
            r < s < state.reported().len() ==> state.reported()[r].place < (
            #[trigger] state.reported()[s]).place,
{
    crate::laws::lemma_reported(state);
}

/// Frames without detections age every track, drop those that were not observed
/// in the last `max_age` frames, and change nothing else.
pub proof fn lemma_waiting_track(state: TrackerState, frames: nat, track: int) -> (place: int)
    requires
        state.tracks.len() <= usize::MAX,
        0 <= track < state.tracks.len(),
        state.tracks[track].age + frames <= usize::MAX,
        state.tracks[track].time_since_update + frames <= usize::MAX,
    ensures
        ({
            let before = state.tracks[track];
            let after = state.idle(frames);
            let kept = state.idle_places(frames);
            &&& before.time_since_update + frames <= state.max_age ==> {
                &&& 0 <= place < after.tracks.len()
                &&& place < kept.len()
                &&& kept[place] == track
                &&& after.tracks[place] == (TrackRecord {
                    id: before.id,
                    confidence: before.confidence,
                    hits: before.hits,
                    age: (before.age + frames) as usize,
                    time_since_update: (before.time_since_update + frames) as usize,
                })
            }
            &&& before.time_since_update + frames > state.max_age ==> !kept.contains(track as usize)
        }),
{
    let keep = |t: int| state.tracks[t].time_since_update + frames <= state.max_age;
    let kept = state.idle_places(frames);
    lemma_select(state.tracks.len(), keep);
    if keep(track) {
        assert(kept.contains(track as usize));
        choose|p: int| 0 <= p < kept.len() && kept[p] == track as usize
    } else {
        if kept.contains(track as usize) {
            let p = choose|p: int| 0 <= p < kept.len() && kept[p] == track as usize;
            assert(keep(kept[p] as int));
        }
        0
    }
}

/// After frames without detections there is nothing but the tracks that are
/// kept, in order, and settings and identities are those of before.
pub proof fn lemma_waiting_changes_nothing_else(state: TrackerState, frames: nat)
    requires
        state.tracks.len() <= usize::MAX,
    ensures
        ({
            let after = state.idle(frames);
            let kept = state.idle_places(frames);
            &&& after.tracks.len() == kept.len()
            &&& forall|p: int|
                0 <= p < kept.len() ==> (#[trigger] kept[p]) < state.tracks.len()
            &&& forall|p: int, q: int|
                0 <= p < q < kept.len() ==> #[trigger] kept[p] < #[trigger] kept[q]
            &&& after.next_id == state.next_id
            &&& after.max_age == state.max_age
            &&& after.min_hits == state.min_hits
            &&& after.iou_threshold == state.iou_threshold
            &&& after.confidence_mode == state.confidence_mode
            &&& after.high_confidence_threshold == state.high_confidence_threshold
        }),
{
    lemma_select(
        state.tracks.len(),
        |t: int| state.tracks[t].time_since_update + frames <= state.max_age,
    );
}

/// There is room for a frame if and only if the created tracks do not use up
/// more identities than there are, no track has reached the last age, and no
/// matched track the last number of detections.
pub proof fn lemma_room_exactly(
    state: TrackerState,
    detections: Seq<SimpleSortDetection>,
    overlaps: Seq<Seq<Binary64>>,
)
    ensures
        ({
            let first = state.first_pass(detections, overlaps);
            let second = state.second_pass(detections, overlaps);
            state.has_room(detections, overlaps) <==> {
                &&& state.next_id + state.created(detections, first).len() <= u64::MAX
                &&& forall|t: int|
                    0 <= t < state.tracks.len() ==> (#[trigger] state.tracks[t]).age < usize::MAX
                &&& forall|k: int|
                    0 <= k < (first + second).len() && (#[trigger] (first + second)[k]).0
                        < state.tracks.len() ==> state.tracks[(first + second)[k].0 as int].hits
                        < usize::MAX
            }
        }),
{
    let first = state.first_pass(detections, overlaps);
    let second = state.second_pass(detections, overlaps);
    let both = first + second;
    if state.has_room(detections, overlaps) {
        assert forall|k: int|
            0 <= k < both.len() && (#[trigger] both[k]).0 < state.tracks.len() implies
            state.tracks[both[k].0 as int].hits < usize::MAX by {
            assert(track_matched(both, both[k].0 as int));
            assert(state.tracks[both[k].0 as int].age < usize::MAX);
        }
        assert forall|t: int| 0 <= t < state.tracks.len() implies (#[trigger] state.tracks[t]).age
            < usize::MAX by {}
    }
    if (forall|t: int|
        0 <= t < state.tracks.len() ==> (#[trigger] state.tracks[t]).age < usize::MAX) && (forall|
        k: int,
    |
        0 <= k < both.len() && (#[trigger] both[k]).0 < state.tracks.len()
            ==> state.tracks[both[k].0 as int].hits < usize::MAX) {
        assert(state.counts_on(both)) by {
            assert forall|t: int| 0 <= t < state.tracks.len() implies (
            #[trigger] state.tracks[t]).age < usize::MAX && (track_matched(both, t)
                ==> state.tracks[t].hits < usize::MAX) by {
                if track_matched(both, t) {
                    let k = choose|k: int| 0 <= k < both.len() && (#[trigger] both[k]).0 == t;
                    assert(both[k].0 < state.tracks.len());
                }
            }
        }
    }
}

/// A new tracker has the settings that it is given, the starting identity as
/// its next one, and no tracks.
pub proof fn lemma_new_tracker(
    max_age: usize,
    min_hits: usize,
    iou_threshold: Binary64,
    starting_id: u64,
    confidence_mode: SimpleSortConfidenceMode,
    high_confidence_threshold: Binary64,
)
    ensures
        ({
            let tracker = TrackerState::fresh(
                max_age,
                min_hits,
                iou_threshold,
                starting_id,
                confidence_mode,
                high_confidence_threshold,
            );
            &&& tracker.max_age == max_age
            &&& tracker.min_hits == min_hits
            &&& tracker.iou_threshold == iou_threshold
            &&& tracker.next_id == starting_id
            &&& tracker.confidence_mode == confidence_mode
            &&& tracker.high_confidence_threshold == high_confidence_threshold
            &&& tracker.tracks.len() == 0
        }),
{
}

/// A tracker that is reset keeps its settings, has no tracks, and goes on with
/// the given identity.
pub proof fn lemma_reset_tracker(state: TrackerState, starting_id: u64)
    ensures
        ({
            let tracker = state.restarted(starting_id);
            &&& tracker.max_age == state.max_age
            &&& tracker.min_hits == state.min_hits
            &&& tracker.iou_threshold == state.iou_threshold
            &&& tracker.next_id == starting_id
            &&& tracker.confidence_mode == state.confidence_mode
            &&& tracker.high_confidence_threshold == state.high_confidence_threshold
            &&& tracker.tracks.len() == 0
        }),
{
}

} // verus!
