//! What a batch does with its scenes: each has a tracker under the settings of
//! the batch, and all share one sequence of identities.

use crate::batch::{all_answered, answered, room_at, BatchState, SceneRequest, SceneUpdate};
use crate::matrix::matrix;
use crate::track::TrackRecord;
use crate::tracker::TrackerState;
use vstd::prelude::*;

verus! {

/// The tracker of a scene has the settings of the batch and its next identity,
/// and the tracks that the scene has so far.
pub proof fn lemma_scene_settings(batch: BatchState, scene: u64)
    ensures
        ({
            let tracker = batch.tracker(scene);
            &&& tracker.max_age == batch.max_age
            &&& tracker.min_hits == batch.min_hits
            &&& tracker.iou_threshold == batch.iou_threshold
            &&& tracker.confidence_mode == batch.confidence_mode
            &&& tracker.high_confidence_threshold == batch.high_confidence_threshold
            &&& tracker.next_id == batch.next_id
            &&& tracker.tracks == batch.tracks(scene)
            &&& batch.trackers.contains_key(scene) ==> tracker.tracks
                == batch.trackers[scene].tracks
            &&& !batch.trackers.contains_key(scene) ==> tracker.tracks.len() == 0
        }),
{
}

/// In a batch that is in order, the tracker that a scene holds has the settings
/// of the batch.
pub proof fn lemma_held_settings(batch: BatchState, scene: u64)
    requires
        batch.wf(),
        batch.trackers.contains_key(scene),
    ensures
        batch.trackers[scene].max_age == batch.max_age,
        batch.trackers[scene].min_hits == batch.min_hits,
        batch.trackers[scene].iou_threshold == batch.iou_threshold,
        batch.trackers[scene].confidence_mode == batch.confidence_mode,
        batch.trackers[scene].high_confidence_threshold == batch.high_confidence_threshold,
{
}

/// The number of frames of a scene is what was counted for it, and 0 for a new
/// scene.
pub proof fn lemma_epoch(batch: BatchState, scene: u64)
    ensures
        batch.epochs.contains_key(scene) ==> batch.epoch(scene) == batch.epochs[scene],
        !batch.epochs.contains_key(scene) ==> batch.epoch(scene) == 0,
{
}

/// A request does to its scene what a frame does to a tracker with the settings
/// of the batch, its next identity and the tracks of the scene; the batch goes
/// on with the next identity of that tracker and counts one frame; all else
/// stays.
pub proof fn lemma_request_effects(
    batch: BatchState,
    request: SceneRequest,
    tracks: Seq<TrackRecord>,
)
    requires
        batch.trackers.contains_key(request.scene_id) ==> tracks
            == batch.trackers[request.scene_id].tracks,
        !batch.trackers.contains_key(request.scene_id) ==> tracks.len() == 0,
        batch.epoch(request.scene_id) < usize::MAX,
    ensures
        ({
            let scene = request.scene_id;
            let after = batch.after_request(request);
            let own = TrackerState {
                max_age: batch.max_age,
                min_hits: batch.min_hits,
                iou_threshold: batch.iou_threshold,
                confidence_mode: batch.confidence_mode,
                high_confidence_threshold: batch.high_confidence_threshold,
                next_id: batch.next_id,
                tracks,
            };
            let moved = own.after_frame(
                request.detections@,
                own.first_pass(request.detections@, matrix(request.overlaps@)),
                own.second_pass(request.detections@, matrix(request.overlaps@)),
            );
            &&& after.trackers == batch.trackers.insert(scene, moved)
            &&& after.epochs == batch.epochs.insert(scene, after.epoch(scene))
            &&& after.epoch(scene) == batch.epoch(scene) + 1
            &&& after.next_id == moved.next_id
            &&& after.max_age == batch.max_age
            &&& after.min_hits == batch.min_hits
            &&& after.iou_threshold == batch.iou_threshold
            &&& after.confidence_mode == batch.confidence_mode
            &&& after.high_confidence_threshold == batch.high_confidence_threshold
        }),
{
    assert(batch.tracker(request.scene_id).tracks =~= tracks);
}

/// Skipping frames of a scene lets its tracks wait, counts the frames, and
/// leaves all else, identities too, as it is.
pub proof fn lemma_skip_effects(batch: BatchState, scene: u64, frames: nat)
    requires
        batch.epoch(scene) + frames <= usize::MAX,
    ensures
        ({
            let after = batch.after_skip(scene, frames);
            &&& batch.trackers.contains_key(scene) ==> after.trackers == batch.trackers.insert(
                scene,
                batch.trackers[scene].idle(frames),
            )
            &&& !batch.trackers.contains_key(scene) ==> after.trackers == batch.trackers
            &&& after.epoch(scene) == batch.epoch(scene) + frames
            &&& forall|other: u64| other != scene ==> #[trigger] after.epoch(other) == batch.epoch(
                other,
            )
            &&& after.next_id == batch.next_id
            &&& after.max_age == batch.max_age
            &&& after.min_hits == batch.min_hits
            &&& after.iou_threshold == batch.iou_threshold
            &&& after.confidence_mode == batch.confidence_mode
            &&& after.high_confidence_threshold == batch.high_confidence_threshold
        }),
{
}

/// Requests are processed in turn, none left out.
pub proof fn lemma_requests_in_turn(
    batch: BatchState,
    requests: Seq<SceneRequest>,
    count: nat,
)
    requires
        count < requests.len(),
    ensures
        batch.after_requests(requests, 0) == batch,
        batch.after_requests(requests, count + 1) == batch.after_requests(
            requests,
            count,
        ).after_request(requests[count as int]),
{
}

/// Each answer is for the scene of its request, with the number of its frame in
/// that scene, and holds what a frame with those detections and overlaps does
/// to a tracker with the settings of the batch, the next identity after the
/// requests before it, and the tracks of the scene.
pub proof fn lemma_answers_exactly(
    batch: BatchState,
    requests: Seq<SceneRequest>,
    updates: Seq<SceneUpdate>,
    k: int,
)
    requires
        all_answered(batch, requests, updates),
        0 <= k < updates.len(),
    ensures
        ({
            let now = batch.after_requests(requests, k as nat);
            let scene = requests[k].scene_id;
            let detections = requests[k].detections@;
            let overlaps = matrix(requests[k].overlaps@);
            let own = TrackerState {
                max_age: now.max_age,
                min_hits: now.min_hits,
                iou_threshold: now.iou_threshold,
                confidence_mode: now.confidence_mode,
                high_confidence_threshold: now.high_confidence_threshold,
                next_id: now.next_id,
                tracks: now.tracks(scene),
            };
            let first = own.first_pass(detections, overlaps);
            let second = own.second_pass(detections, overlaps);
            let frame = updates[k].frame;
            &&& updates[k].scene_id == scene
            &&& updates[k].epoch == now.epoch(scene) + 1
            &&& frame.first_matches@ == first
            &&& frame.second_matches@ == second
            &&& frame.created@ == own.created(detections, first)
            &&& frame.kept@ == own.kept(detections, first, second)
            &&& frame.reported@ == own.after_frame(detections, first, second).reported()
        }),
{
    assert(answered(batch, requests, updates, k));
    let now = batch.after_requests(requests, k as nat);
    let scene = requests[k].scene_id;
    assert(now.tracker(scene) =~= (TrackerState {
        max_age: now.max_age,
        min_hits: now.min_hits,
        iou_threshold: now.iou_threshold,
        confidence_mode: now.confidence_mode,
        high_confidence_threshold: now.high_confidence_threshold,
        next_id: now.next_id,
        tracks: now.tracks(scene),
    }));
}

/// Where there is room for requests, each, after those before it, finds a frame
/// count and identities to go on with.
pub proof fn lemma_batch_room(batch: BatchState, requests: Seq<SceneRequest>, k: int)
    requires
        batch.has_room(requests),
        0 <= k < requests.len(),
    ensures
        ({
            let now = batch.after_requests(requests, k as nat);
            let own = now.tracker(requests[k].scene_id);
            let first = own.first_pass(requests[k].detections@, matrix(requests[k].overlaps@));
            &&& now.epoch(requests[k].scene_id) < usize::MAX
            &&& now.next_id + own.created(requests[k].detections@, first).len() <= u64::MAX
        }),
{
    assert(room_at(batch, requests, k));
}

/// Where there is no room for requests, one of them, after those before it,
/// finds the last frame counted or the identities used up.
pub proof fn lemma_no_batch_room(batch: BatchState, requests: Seq<SceneRequest>) -> (k: int)
    requires
        !batch.has_room(requests),
    ensures
        0 <= k < requests.len(),
        ({
            let now = batch.after_requests(requests, k as nat);
            let own = now.tracker(requests[k].scene_id);
            let first = own.first_pass(requests[k].detections@, matrix(requests[k].overlaps@));
            now.epoch(requests[k].scene_id) == usize::MAX || now.next_id + own.created(
                requests[k].detections@,
                first,
            ).len() > u64::MAX
        }),
{
    choose|k: int| 0 <= k < requests.len() && !#[trigger] room_at(batch, requests, k)
}

} // verus!
