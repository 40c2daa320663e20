//! Many scenes, each with a tracker of its own, that share one sequence of
//! identities.

use crate::binary64::Binary64;
use crate::confidence::{mode_named, OptionsError, SimpleSortConfidenceMode};
use crate::matrix::matrix;
use crate::select::{lemma_select, lemma_select_congruent, lemma_select_prefix, select};
use crate::track::{SimpleSortDetection, TrackRecord};
use crate::tracker::{
    lemma_associate_alike, lemma_created_primary, overlaps_shaped, FrameUpdate, SimpleSort,
    TrackerState,
};
use std::collections::HashMap;
use vstd::prelude::*;

verus! {

/// The detections of one scene, with the overlap of the predicted box of each
/// of its live tracks (rows) with the box of each detection (columns).
#[derive(Clone, Debug)]
pub struct SceneRequest {
    pub scene_id: u64,
    pub detections: Vec<SimpleSortDetection>,
    pub overlaps: Vec<Vec<Binary64>>,
}

/// What a frame did to the tracks of one scene, and its number in that scene.
#[derive(Clone, Debug)]
pub struct SceneUpdate {
    pub scene_id: u64,
    pub epoch: usize,
    pub frame: FrameUpdate,
}

/// What a batch tracker is: the settings of all its scenes, the next identity,
/// and the tracker and the number of frames of each scene.
#[verifier::ext_equal]
pub struct BatchState {
    pub max_age: usize,
    pub min_hits: usize,
    pub iou_threshold: Binary64,
    pub confidence_mode: SimpleSortConfidenceMode,
    pub high_confidence_threshold: Binary64,
    pub next_id: u64,
    pub trackers: Map<u64, TrackerState>,
    pub epochs: Map<u64, usize>,
}

impl BatchState {
    /// A tracker with the settings of the batch and no tracks.
    pub open spec fn blank(self) -> TrackerState {
        TrackerState::fresh(
            self.max_age,
            self.min_hits,
            self.iou_threshold,
            self.next_id,
            self.confidence_mode,
            self.high_confidence_threshold,
        )
    }

    /// The tracks of a scene.
    pub open spec fn tracks(self, scene: u64) -> Seq<TrackRecord> {
        if self.trackers.contains_key(scene) {
            self.trackers[scene].tracks
        } else {
            Seq::empty()
        }
    }

    /// The tracker that takes in the next frame of a scene: its tracks, with
    /// the next identity of the batch.
    pub open spec fn tracker(self, scene: u64) -> TrackerState {
        TrackerState { tracks: self.tracks(scene), ..self.blank() }
    }

    /// The number of frames of a scene.
    pub open spec fn epoch(self, scene: u64) -> usize {
        if self.epochs.contains_key(scene) {
            self.epochs[scene]
        } else {
            0
        }
    }

    /// The thresholds are in range.
    pub open spec fn thresholds_valid(self) -> bool {
        self.iou_threshold.in_unit_interval() && self.high_confidence_threshold.in_unit_interval()
    }

    /// Every tracker is in order and has the settings of the batch, and no
    /// track is older than its scene.
    pub open spec fn wf(self) -> bool {
        forall|scene: u64| #[trigger]
            self.trackers.contains_key(scene) ==> {
                &&& self.trackers[scene].wf()
                &&& self.trackers[scene] == (TrackerState {
                    next_id: self.trackers[scene].next_id,
                    ..self.tracker(scene)
                })
                &&& forall|t: int|
                    0 <= t < self.trackers[scene].tracks.len() ==> (
                    #[trigger] self.trackers[scene].tracks[t]).age < self.epoch(scene)
            }
    }

    /// The batch after a frame of one scene with these matches.
    pub open spec fn after_scene(
        self,
        scene: u64,
        detections: Seq<SimpleSortDetection>,
        first: Seq<(usize, usize)>,
        second: Seq<(usize, usize)>,
    ) -> BatchState {
        let tracker = self.tracker(scene).after_frame(detections, first, second);
        BatchState {
            next_id: tracker.next_id,
            trackers: self.trackers.insert(scene, tracker),
            epochs: self.epochs.insert(scene, (self.epoch(scene) + 1) as usize),
            ..self
        }
    }

    /// The batch after `frames` frames of one scene without detections.
    pub open spec fn after_skip(self, scene: u64, frames: nat) -> BatchState {
        BatchState {
            trackers: if self.trackers.contains_key(scene) {
                self.trackers.insert(scene, self.trackers[scene].idle(frames))
            } else {
                self.trackers
            },
            epochs: if frames > 0 {
                self.epochs.insert(scene, (self.epoch(scene) + frames) as usize)
            } else {
                self.epochs
            },
            ..self
        }
    }

    /// The update of one scene is what the request makes of the batch.
    pub open spec fn answers(self, request: SceneRequest, update: SceneUpdate) -> bool {
        let tracker = self.tracker(request.scene_id);
        let detections = request.detections@;
        let first = update.frame.first_matches@;
        let second = update.frame.second_matches@;
        &&& update.scene_id == request.scene_id
        &&& update.epoch == self.epoch(request.scene_id) + 1
        &&& tracker.associates(detections, matrix(request.overlaps@), first, second)
        &&& tracker.all_tracks(detections, first, second).len() <= usize::MAX
        &&& update.frame.created@ == tracker.created(detections, first)
        &&& update.frame.kept@ == tracker.kept(detections, first, second)
        &&& update.frame.reported@ == tracker.after_frame(detections, first, second).reported()
    }

    /// The batch after one request.
    pub open spec fn after_request(self, request: SceneRequest) -> BatchState {
        let tracker = self.tracker(request.scene_id);
        let detections = request.detections@;
        let overlaps = matrix(request.overlaps@);
        self.after_scene(
            request.scene_id,
            detections,
            tracker.first_pass(detections, overlaps),
            tracker.second_pass(detections, overlaps),
        )
    }

    /// The batch after the first `count` requests.
    pub open spec fn after_requests(self, requests: Seq<SceneRequest>, count: nat) -> BatchState
        decreases count,
    {
        if count == 0 {
            self
        } else {
            self.after_requests(requests, (count - 1) as nat).after_request(requests[count - 1])
        }
    }

    /// The number of tracks that a request creates.
    pub open spec fn creates(self, request: SceneRequest) -> nat {
        let tracker = self.tracker(request.scene_id);
        let detections = request.detections@;
        tracker.created(
            detections,
            tracker.first_pass(detections, matrix(request.overlaps@)),
        ).len()
    }

    /// The frame count of the scene and the identities have room for one
    /// request.
    pub open spec fn has_room_for(self, request: SceneRequest) -> bool {
        &&& self.epoch(request.scene_id) < usize::MAX
        &&& self.next_id + self.creates(request) <= u64::MAX
    }

    /// There is room for each request after those before it.
    pub open spec fn has_room(self, requests: Seq<SceneRequest>) -> bool {
        forall|k: int|
            0 <= k < requests.len() ==> #[trigger] room_at(self, requests, k)
    }

    /// The number of primary detections in the first `count` requests.
    pub open spec fn primary_count(self, requests: Seq<SceneRequest>, count: nat) -> nat
        decreases count,
    {
        if count == 0 {
            0
        } else {
            self.primary_count(requests, (count - 1) as nat) + self.blank().primary(
                requests[count - 1].detections@,
            ).len()
        }
    }

    /// The frame counts and the identities have room for these requests, even
    /// if every primary detection creates a track.
    pub open spec fn has_ample_room(self, requests: Seq<SceneRequest>) -> bool {
        &&& self.next_id + self.primary_count(requests, requests.len()) <= u64::MAX
        &&& forall|k: int|
            0 <= k < requests.len() ==> self.epoch((#[trigger] requests[k]).scene_id) < usize::MAX
    }

    /// Each request has overlaps for the tracks of its scene.
    pub open spec fn overlaps_fit(self, requests: Seq<SceneRequest>) -> bool {
        forall|k: int|
            0 <= k < requests.len() ==> overlaps_shaped(
                matrix((#[trigger] requests[k]).overlaps@),
                self.tracks(requests[k].scene_id).len(),
                requests[k].detections@.len(),
            )
    }
}

/// After the first `k` requests there is room for the next.
pub open spec fn room_at(batch: BatchState, requests: Seq<SceneRequest>, k: int) -> bool {
    batch.after_requests(requests, k as nat).has_room_for(requests[k])
}

/// No scene occurs twice.
pub open spec fn distinct_scenes(requests: Seq<SceneRequest>) -> bool {
    forall|k: int, l: int|
        0 <= k < l < requests.len() ==> (#[trigger] requests[k]).scene_id != (
        #[trigger] requests[l]).scene_id
}

/// Multi-scene tracker.
#[derive(Debug)]
pub struct BatchSimpleSort {
    max_age: usize,
    min_hits: usize,
    iou_threshold: Binary64,
    confidence_mode: SimpleSortConfidenceMode,
    high_confidence_threshold: Binary64,
    next_id: u64,
    trackers: HashMap<u64, SimpleSort>,
    epochs: HashMap<u64, usize>,
}

impl View for BatchSimpleSort {
    type V = BatchState;

    closed spec fn view(&self) -> BatchState {
        BatchState {
            max_age: self.max_age,
            min_hits: self.min_hits,
            iou_threshold: self.iou_threshold,
            confidence_mode: self.confidence_mode,
            high_confidence_threshold: self.high_confidence_threshold,
            next_id: self.next_id,
            trackers: self.trackers@.map_values(|tracker: SimpleSort| tracker@),
            epochs: self.epochs@,
        }
    }
}

impl BatchSimpleSort {
    pub fn new(
        max_age: usize,
        min_hits: usize,
        iou_threshold: Binary64,
        starting_id: u64,
        confidence_mode: SimpleSortConfidenceMode,
        high_confidence_threshold: Binary64,
    ) -> (batch: BatchSimpleSort)
        ensures
            batch@.wf(),
            batch@ == (BatchState {
                max_age,
                min_hits,
                iou_threshold,
                confidence_mode,
                high_confidence_threshold,
                next_id: starting_id,
                trackers: Map::empty(),
                epochs: Map::empty(),
            }),
    {
        let batch = BatchSimpleSort {
            max_age,
            min_hits,
            iou_threshold,
            confidence_mode,
            high_confidence_threshold,
            next_id: starting_id,
            trackers: HashMap::new(),
            epochs: HashMap::new(),
        };
        assert(batch@.trackers =~= Map::empty());
        batch
    }

    /// A batch tracker from options as a user gives them: the first of the
    /// name of the mode, the IoU threshold and the high-confidence threshold
    /// that is not acceptable is the error.
    pub fn from_options(
        max_age: usize,
        min_hits: usize,
        iou_threshold: Binary64,
        starting_id: u64,
        confidence_mode: &str,
        high_confidence_threshold: Binary64,
    ) -> (result: Result<BatchSimpleSort, OptionsError>)
        ensures
            match result {
                Ok(batch) => {
                    &&& mode_named(confidence_mode@) is Some
                    &&& batch@.wf()
                    &&& batch@.thresholds_valid()
                    &&& batch@ == (BatchState {
                        max_age,
                        min_hits,
                        iou_threshold,
                        confidence_mode: mode_named(confidence_mode@)->0,
                        high_confidence_threshold,
                        next_id: starting_id,
                        trackers: Map::empty(),
                        epochs: Map::empty(),
                    })
                },
                Err(OptionsError::ConfidenceMode) => mode_named(confidence_mode@) is None,
                Err(OptionsError::IouThreshold) => mode_named(confidence_mode@) is Some
                    && !iou_threshold.in_unit_interval(),
                Err(OptionsError::HighConfidenceThreshold) => mode_named(confidence_mode@) is Some
                    && iou_threshold.in_unit_interval()
                    && !high_confidence_threshold.in_unit_interval(),
            },
    {
        match SimpleSortConfidenceMode::from_name(confidence_mode) {
            None => Err(OptionsError::ConfidenceMode),
            Some(mode) => {
                if !iou_threshold.is_unit() {
                    return Err(OptionsError::IouThreshold);
                }
                if !high_confidence_threshold.is_unit() {
                    return Err(OptionsError::HighConfidenceThreshold);
                }
                Ok(
                    BatchSimpleSort::new(
                        max_age,
                        min_hits,
                        iou_threshold,
                        starting_id,
                        mode,
                        high_confidence_threshold,
                    ),
                )
            },
        }
    }

    /// Tracks expire during an update, so nothing is left to clear.
    pub fn clear_wasted(&mut self)
        ensures
            *final(self) == *old(self),
    {
    }

    pub fn current_epoch_with_scene(&self, scene_id: u64) -> (epoch: usize)
        ensures
            epoch == self@.epoch(scene_id),
    {
        broadcast use vstd::std_specs::hash::group_hash_axioms;

        match self.epochs.get(&scene_id) {
            Some(epoch) => *epoch,
            None => 0,
        }
    }

    /// The tracker of a scene, a new one for a new scene, taken out of the
    /// batch, with the next identity of the batch.
    fn tracker(&mut self, scene_id: u64) -> (tracker: SimpleSort)
        requires
            old(self)@.wf(),
            old(self)@.thresholds_valid(),
        ensures
            tracker@ == old(self)@.tracker(scene_id),
            tracker@.wf(),
            final(self)@ == (BatchState {
                trackers: old(self)@.trackers.remove(scene_id),
                ..old(self)@
            }),
    {
        broadcast use vstd::std_specs::hash::group_hash_axioms;

        let ghost before = self@;
        let ghost held = self.trackers@;
        assert(before.trackers.contains_key(scene_id) == held.contains_key(scene_id));
        let found: Option<SimpleSort> = self.trackers.remove(&scene_id);
        assert(self@.trackers =~= before.trackers.remove(scene_id));
        match found {
            Some(tracker) => {
                let mut tracker: SimpleSort = tracker;
                assert(before.trackers[scene_id] == tracker@);
                tracker.set_next_id(self.next_id);
                tracker
            },
            None => SimpleSort::new_with_confidence(
                self.max_age,
                self.min_hits,
                self.iou_threshold,
                self.next_id,
                self.confidence_mode,
                self.high_confidence_threshold,
            ),
        }
    }

    /// Counts `frames` more frames of a scene.
    fn advance_epoch(&mut self, scene_id: u64, frames: usize) -> (epoch: usize)
        requires
            old(self)@.epoch(scene_id) + frames <= usize::MAX,
        ensures
            epoch == old(self)@.epoch(scene_id) + frames,
            final(self)@ == (BatchState {
                epochs: old(self)@.epochs.insert(scene_id, epoch),
                ..old(self)@
            }),
    {
        broadcast use vstd::std_specs::hash::group_hash_axioms;

        let epoch: usize = self.current_epoch_with_scene(scene_id) + frames;
        self.epochs.insert(scene_id, epoch);
        epoch
    }

    /// Puts a tracker in the place of that of a scene.
    fn put_tracker(&mut self, scene_id: u64, tracker: SimpleSort)
        ensures
            final(self)@ == (BatchState {
                trackers: old(self)@.trackers.insert(scene_id, tracker@),
                ..old(self)@
            }),
    {
        broadcast use vstd::std_specs::hash::group_hash_axioms;

        let ghost before = self@;
        self.trackers.insert(scene_id, tracker);
        assert(self@.trackers =~= before.trackers.insert(scene_id, tracker@));
    }
}

/// Which detections are primary depends on the settings alone.
proof fn lemma_primary_settings(
    a: TrackerState,
    b: TrackerState,
    detections: Seq<SimpleSortDetection>,
)
    requires
        a.confidence_mode == b.confidence_mode,
        a.high_confidence_threshold == b.high_confidence_threshold,
    ensures
        a.primary(detections) == b.primary(detections),
{
    lemma_select_congruent(
        detections.len(),
        |d: int| a.is_primary(detections[d]),
        |d: int| b.is_primary(detections[d]),
    );
}

/// A scene whose frame count has room leaves its counters room too.
proof fn lemma_scene_room(batch: BatchState, request: SceneRequest)
    requires
        batch.wf(),
        batch.has_room_for(request),
    ensures
        batch.tracker(request.scene_id).has_room(
            request.detections@,
            matrix(request.overlaps@),
        ),
{
    let scene = request.scene_id;
    let tracker = batch.tracker(scene);
    assert forall|t: int| 0 <= t < tracker.tracks.len() implies (
    #[trigger] tracker.tracks[t]).age < usize::MAX && tracker.tracks[t].hits < usize::MAX by {
        assert(batch.trackers.contains_key(scene));
        assert(batch.trackers[scene].tracks[t].age < batch.epoch(scene));
        assert(batch.trackers[scene].tracks[t].consistent());
    }
}

/// A frame of one scene keeps the batch in order.
proof fn lemma_after_scene_wf(
    batch: BatchState,
    scene: u64,
    detections: Seq<SimpleSortDetection>,
    first: Seq<(usize, usize)>,
    second: Seq<(usize, usize)>,
)
    requires
        batch.wf(),
        batch.epoch(scene) < usize::MAX,
        batch.tracker(scene).after_frame(detections, first, second).wf(),
        batch.tracker(scene).all_tracks(detections, first, second).len() <= usize::MAX,
    ensures
        batch.after_scene(scene, detections, first, second).wf(),
{
    let tracker = batch.tracker(scene);
    let after = batch.after_scene(scene, detections, first, second);
    let all = tracker.all_tracks(detections, first, second);
    lemma_select(all.len(), |k: int| all[k].time_since_update <= tracker.max_age);
    assert forall|other: u64| #[trigger] after.trackers.contains_key(other) implies {
        &&& after.trackers[other].wf()
        &&& after.trackers[other] == (TrackerState {
            next_id: after.trackers[other].next_id,
            ..after.tracker(other)
        })
        &&& forall|t: int|
            0 <= t < after.trackers[other].tracks.len() ==> (
            #[trigger] after.trackers[other].tracks[t]).age < after.epoch(other)
    } by {
        if other == scene {
            let kept = tracker.kept(detections, first, second);
            assert forall|t: int| 0 <= t < after.trackers[other].tracks.len() implies (
            #[trigger] after.trackers[other].tracks[t]).age < after.epoch(other) by {
                let k = kept[t] as int;
                assert(after.trackers[other].tracks[t] == all[k]);
                if k < tracker.tracks.len() {
                    assert(batch.trackers.contains_key(scene));
                    assert(batch.trackers[scene].tracks[k].age < batch.epoch(scene));
                }
            }
        } else {
            assert(batch.trackers.contains_key(other));
            assert(after.epoch(other) == batch.epoch(other));
        }
    }
}

/// Frames of a scene without detections keep the batch in order.
proof fn lemma_after_skip_wf(batch: BatchState, scene: u64, frames: nat)
    requires
        batch.wf(),
        batch.epoch(scene) + frames <= usize::MAX,
        batch.trackers.contains_key(scene) ==> batch.trackers[scene].idle(frames).wf(),
    ensures
        batch.after_skip(scene, frames).wf(),
{
    let after = batch.after_skip(scene, frames);
    assert forall|other: u64| #[trigger] after.trackers.contains_key(other) implies {
        &&& after.trackers[other].wf()
        &&& after.trackers[other] == (TrackerState {
            next_id: after.trackers[other].next_id,
            ..after.tracker(other)
        })
        &&& forall|t: int|
            0 <= t < after.trackers[other].tracks.len() ==> (
            #[trigger] after.trackers[other].tracks[t]).age < after.epoch(other)
    } by {
        assert(batch.trackers.contains_key(other));
        if other == scene {
            let tracker = batch.trackers[scene];
            let places = tracker.idle_places(frames);
            lemma_select(
                tracker.tracks.len(),
                |t: int| tracker.tracks[t].time_since_update + frames <= tracker.max_age,
            );
            assert forall|t: int| 0 <= t < after.trackers[other].tracks.len() implies (
            #[trigger] after.trackers[other].tracks[t]).age < after.epoch(other) by {
                let k = places[t] as int;
                assert(tracker.tracks[k].age < batch.epoch(scene));
                assert(after.trackers[other].tracks[t] == tracker.tracks[k].waited(frames));
            }
        } else {
            assert(after.epoch(other) == batch.epoch(other));
        }
    }
}

/// Requests for other scenes leave the tracks and the frame count of a scene
/// as they are.
pub proof fn lemma_other_scenes(
    batch: BatchState,
    requests: Seq<SceneRequest>,
    count: nat,
    scene: u64,
)
    requires
        count <= requests.len(),
        forall|k: int| 0 <= k < count ==> (#[trigger] requests[k]).scene_id != scene,
    ensures
        batch.after_requests(requests, count).tracks(scene) == batch.tracks(scene),
        batch.after_requests(requests, count).epoch(scene) == batch.epoch(scene),
    decreases count,
{
    if count > 0 {
        lemma_other_scenes(batch, requests, (count - 1) as nat, scene);
        assert(requests[count - 1].scene_id != scene);
    }
}

/// Requests keep the settings.
proof fn lemma_requests_settings(batch: BatchState, requests: Seq<SceneRequest>, count: nat)
    ensures
        ({
            let after = batch.after_requests(requests, count);
            after == (BatchState {
                next_id: after.next_id,
                trackers: after.trackers,
                epochs: after.epochs,
                ..batch
            })
        }),
    decreases count,
{
    if count > 0 {
        lemma_requests_settings(batch, requests, (count - 1) as nat);
    }
}

/// Requests use up no more identities than they have primary detections.
proof fn lemma_requests_ids(batch: BatchState, requests: Seq<SceneRequest>, count: nat)
    requires
        batch.next_id + batch.primary_count(requests, count) <= u64::MAX,
    ensures
        batch.after_requests(requests, count).next_id <= batch.next_id + batch.primary_count(
            requests,
            count,
        ),
    decreases count,
{
    if count > 0 {
        let k = count - 1;
        let request = requests[k];
        lemma_requests_ids(batch, requests, k as nat);
        lemma_requests_settings(batch, requests, k as nat);
        let tracker = batch.after_requests(requests, k as nat).tracker(request.scene_id);
        lemma_created_primary(
            tracker,
            request.detections@,
            tracker.first_pass(request.detections@, matrix(request.overlaps@)),
        );
        lemma_primary_settings(tracker, batch.blank(), request.detections@);
    }
}

/// The number of primary detections grows with the number of requests.
proof fn lemma_primary_count(batch: BatchState, requests: Seq<SceneRequest>, a: nat, b: nat)
    requires
        a <= b,
    ensures
        batch.primary_count(requests, a) <= batch.primary_count(requests, b),
    decreases b,
{
    if a < b {
        lemma_primary_count(batch, requests, a, (b - 1) as nat);
    }
}

/// Ample room is room enough.
proof fn lemma_ample_batch_room(batch: BatchState, requests: Seq<SceneRequest>)
    requires
        distinct_scenes(requests),
        batch.has_ample_room(requests),
    ensures
        batch.has_room(requests),
{
    assert forall|k: int| 0 <= k < requests.len() implies #[trigger] room_at(
        batch,
        requests,
        k,
    ) by {
        let request = requests[k];
        let now = batch.after_requests(requests, k as nat);
        let tracker = now.tracker(request.scene_id);
        assert forall|l: int| 0 <= l < k implies (#[trigger] requests[l]).scene_id
            != request.scene_id by {
            assert(requests[k].scene_id == request.scene_id);
        }
        lemma_other_scenes(batch, requests, k as nat, request.scene_id);
        lemma_primary_count(batch, requests, k as nat, requests.len());
        lemma_primary_count(batch, requests, (k + 1) as nat, requests.len());
        lemma_requests_ids(batch, requests, k as nat);
        lemma_requests_settings(batch, requests, k as nat);
        lemma_created_primary(
            tracker,
            request.detections@,
            tracker.first_pass(request.detections@, matrix(request.overlaps@)),
        );
        lemma_primary_settings(tracker, batch.blank(), request.detections@);
        assert(batch.primary_count(requests, (k + 1) as nat) == batch.primary_count(
            requests,
            k as nat,
        ) + batch.blank().primary(requests[k].detections@).len());
    }
}

/// Update `k` answers request `k`, after those before it.
pub open spec fn answered(
    batch: BatchState,
    requests: Seq<SceneRequest>,
    updates: Seq<SceneUpdate>,
    k: int,
) -> bool {
    batch.after_requests(requests, k as nat).answers(requests[k], updates[k])
}

/// The updates answer the requests one after the other.
pub open spec fn all_answered(
    batch: BatchState,
    requests: Seq<SceneRequest>,
    updates: Seq<SceneUpdate>,
) -> bool {
    forall|k: int| 0 <= k < updates.len() ==> #[trigger] answered(batch, requests, updates, k)
}

/// Requests for other scenes do not change the epoch of the next request's
/// scene nor what the next request creates, and a request uses up as many
/// identities as it creates tracks.
proof fn lemma_request_creates(batch: BatchState, requests: Seq<SceneRequest>, k: int)
    requires
        0 <= k < requests.len(),
        distinct_scenes(requests),
    ensures
        ({
            let now = batch.after_requests(requests, k as nat);
            let next = batch.after_requests(requests, (k + 1) as nat);
            let creates = batch.creates(requests[k]);
            &&& now.epoch(requests[k].scene_id) == batch.epoch(requests[k].scene_id)
            &&& now.creates(requests[k]) == creates
            &&& now.next_id + creates <= u64::MAX ==> next.next_id == now.next_id + creates
        }),
{
    let request = requests[k];
    let scene = request.scene_id;
    let now = batch.after_requests(requests, k as nat);
    assert forall|l: int| 0 <= l < k implies (#[trigger] requests[l]).scene_id != scene by {
        assert(requests[k].scene_id == scene);
    }
    lemma_other_scenes(batch, requests, k as nat, scene);
    lemma_requests_settings(batch, requests, k as nat);
    lemma_associate_alike(
        batch.tracker(scene),
        now.tracker(scene),
        request.detections@,
        matrix(request.overlaps@),
    );
    assert(batch.after_requests(requests, (k + 1) as nat) == now.after_request(request));
}

/// After the first `k` of the requests, the next one can be processed.
proof fn lemma_request_ready(batch: BatchState, requests: Seq<SceneRequest>, k: int)
    requires
        0 <= k < requests.len(),
        distinct_scenes(requests),
        batch.thresholds_valid(),
        batch.has_room(requests),
        batch.overlaps_fit(requests),
    ensures
        ({
            let now = batch.after_requests(requests, k as nat);
            &&& now.thresholds_valid()
            &&& now.has_room_for(requests[k])
            &&& overlaps_shaped(
                matrix(requests[k].overlaps@),
                now.tracks(requests[k].scene_id).len(),
                requests[k].detections@.len(),
            )
        }),
{
    let request = requests[k];
    assert forall|l: int| 0 <= l < k implies (#[trigger] requests[l]).scene_id
        != request.scene_id by {
        assert(requests[k].scene_id == request.scene_id);
    }
    lemma_other_scenes(batch, requests, k as nat, request.scene_id);
    lemma_requests_settings(batch, requests, k as nat);
    assert(room_at(batch, requests, k));
}

/// Answering the next request answers one request more.
proof fn lemma_one_more_answer(
    batch: BatchState,
    requests: Seq<SceneRequest>,
    updates: Seq<SceneUpdate>,
    update: SceneUpdate,
)
    requires
        updates.len() < requests.len(),
        all_answered(batch, requests, updates),
        batch.after_requests(requests, updates.len()).answers(
            requests[updates.len() as int],
            update,
        ),
    ensures
        all_answered(batch, requests, updates.push(update)),
        batch.after_requests(requests, updates.len() + 1) == batch.after_requests(
            requests,
            updates.len(),
        ).after_request(requests[updates.len() as int]),
{
    let more = updates.push(update);
    assert forall|k: int| 0 <= k < more.len() implies #[trigger] answered(
        batch,
        requests,
        more,
        k,
    ) by {
        if k < updates.len() {
            assert(more[k] == updates[k]);
            assert(answered(batch, requests, updates, k));
        }
    }
}

impl BatchSimpleSort {
    /// Processes a frame of one scene.
    fn predict_scene(&mut self, request: &SceneRequest) -> (update: SceneUpdate)
        requires
            old(self)@.wf(),
            old(self)@.thresholds_valid(),
            old(self)@.has_room_for(*request),
            overlaps_shaped(
                matrix(request.overlaps@),
                old(self)@.tracks(request.scene_id).len(),
                request.detections@.len(),
            ),
        ensures
            final(self)@.wf(),
            old(self)@.answers(*request, update),
            final(self)@ == old(self)@.after_request(*request),
    {
        let ghost before = self@;
        let scene_id: u64 = request.scene_id;
        proof {
            lemma_scene_room(before, *request);
        }
        let mut tracker: SimpleSort = self.tracker(scene_id);
        let frame: FrameUpdate = tracker.update(
            request.detections.as_slice(),
            request.overlaps.as_slice(),
        );
        self.next_id = tracker.next_id();
        let ghost after = tracker@;
        self.put_tracker(scene_id, tracker);
        let epoch: usize = self.advance_epoch(scene_id, 1);
        assert(self@ =~= before.after_request(*request)) by {
            assert(before.trackers.remove(scene_id).insert(scene_id, after)
                =~= before.trackers.insert(scene_id, after));
        }
        proof {
            lemma_after_scene_wf(
                before,
                scene_id,
                request.detections@,
                frame.first_matches@,
                frame.second_matches@,
            );
        }
        SceneUpdate { scene_id, epoch, frame }
    }

    /// Processes the frames of all scenes of a batch request, in the order in
    /// which they stand.
    pub fn predict(&mut self, requests: &Vec<SceneRequest>) -> (updates: Vec<SceneUpdate>)
        requires
            old(self)@.wf(),
            requests.len() > 0 ==> old(self)@.thresholds_valid(),
            distinct_scenes(requests@),
            old(self)@.has_room(requests@),
            old(self)@.overlaps_fit(requests@),
        ensures
            final(self)@.wf(),
            updates.len() == requests.len(),
            forall|k: int|
                0 <= k < updates.len() ==> (#[trigger] updates@[k]).scene_id
                    == requests@[k].scene_id,
            all_answered(old(self)@, requests@, updates@),
            final(self)@ == old(self)@.after_requests(requests@, requests@.len()),
    {
        let ghost before = self@;
        let mut updates: Vec<SceneUpdate> = Vec::with_capacity(requests.len());
        for k in 0..requests.len()
            invariant
                self@.wf(),
                requests.len() > 0 ==> before.thresholds_valid(),
                distinct_scenes(requests@),
                before.has_room(requests@),
                before.overlaps_fit(requests@),
                updates.len() == k,
                all_answered(before, requests@, updates@),
                self@ == before.after_requests(requests@, k as nat),
        {
            let ghost answered = updates@;
            let request: &SceneRequest = &requests[k];
            proof {
                lemma_request_ready(before, requests@, k as int);
            }
            let update: SceneUpdate = self.predict_scene(request);
            updates.push(update);
            proof {
                lemma_one_more_answer(before, requests@, answered, update);
            }
        }
        assert forall|k: int| 0 <= k < updates.len() implies (#[trigger] updates@[k]).scene_id
            == requests@[k].scene_id by {
            assert(answered(before, requests@, updates@, k));
        }
        updates
    }

    /// The number of tracks that a request creates.
    fn created_count(&self, request: &SceneRequest) -> (count: usize)
        requires
            self@.wf(),
            self@.thresholds_valid(),
            overlaps_shaped(
                matrix(request.overlaps@),
                self@.tracks(request.scene_id).len(),
                request.detections@.len(),
            ),
        ensures
            count == self@.creates(*request),
    {
        broadcast use vstd::std_specs::hash::group_hash_axioms;

        let scene_id: u64 = request.scene_id;
        let ghost held = self.trackers@;
        assert(self@.trackers.contains_key(scene_id) == held.contains_key(scene_id));
        match self.trackers.get(&scene_id) {
            Some(tracker) => {
                assert(self@.trackers[scene_id] == tracker@);
                proof {
                    lemma_associate_alike(
                        self@.tracker(scene_id),
                        tracker@,
                        request.detections@,
                        matrix(request.overlaps@),
                    );
                }
                tracker.created_count(request.detections.as_slice(), request.overlaps.as_slice())
            },
            None => {
                let tracker = SimpleSort::new_with_confidence(
                    self.max_age,
                    self.min_hits,
                    self.iou_threshold,
                    self.next_id,
                    self.confidence_mode,
                    self.high_confidence_threshold,
                );
                tracker.created_count(request.detections.as_slice(), request.overlaps.as_slice())
            },
        }
    }

    /// Whether the frame counts and the identities have room for these
    /// requests.
    pub fn can_predict(&self, requests: &Vec<SceneRequest>) -> (result: bool)
        requires
            self@.wf(),
            requests.len() > 0 ==> self@.thresholds_valid(),
            distinct_scenes(requests@),
            self@.overlaps_fit(requests@),
        ensures
            result == self@.has_room(requests@),
    {
        if self.has_plenty(requests) {
            proof {
                lemma_ample_batch_room(self@, requests@);
            }
            return true;
        }
        let mut room: u64 = u64::MAX - self.next_id;
        for k in 0..requests.len()
            invariant
                self@.wf(),
                requests.len() > 0 ==> self@.thresholds_valid(),
                distinct_scenes(requests@),
                self@.overlaps_fit(requests@),
                room == u64::MAX - self@.after_requests(requests@, k as nat).next_id,
                forall|l: int| 0 <= l < k ==> #[trigger] room_at(self@, requests@, l),
        {
            proof {
                lemma_request_creates(self@, requests@, k as int);
            }
            let request: &SceneRequest = &requests[k];
            assert(*request == requests@[k as int]);
            if self.current_epoch_with_scene(request.scene_id) == usize::MAX {
                assert(!room_at(self@, requests@, k as int));
                return false;
            }
            let count: usize = self.created_count(request);
            if count as u64 > room {
                assert(!room_at(self@, requests@, k as int));
                return false;
            }
            room = room - count as u64;
        }
        true
    }

    /// Whether the frame counts and the identities have room for these
    /// requests, whatever their detections match.
    fn has_plenty(&self, requests: &Vec<SceneRequest>) -> (result: bool)
        ensures
            result == self@.has_ample_room(requests@),
    {
        let mut room: u64 = u64::MAX - self.next_id;
        for k in 0..requests.len()
            invariant
                room == u64::MAX - self@.next_id - self@.primary_count(requests@, k as nat),
                forall|l: int|
                    0 <= l < k ==> self@.epoch((#[trigger] requests@[l]).scene_id) < usize::MAX,
        {
            proof {
                lemma_primary_count(self@, requests@, (k + 1) as nat, requests@.len());
            }
            if self.current_epoch_with_scene(requests[k].scene_id) == usize::MAX {
                assert(requests@[k as int].scene_id == requests[k as int].scene_id);
                return false;
            }
            let ghost keep = |d: int|
                self@.blank().is_primary(requests@[k as int].detections@[d]);
            let mut count: u64 = 0;
            let detection_count: usize = requests[k].detections.len();
            for d in 0..detection_count
                invariant
                    detection_count == requests@[k as int].detections@.len(),
                    k < requests.len(),
                    keep == (|d: int|
                        self@.blank().is_primary(requests@[k as int].detections@[d])),
                    count == select(d as nat, keep).len(),
                    count <= room,
                    room == u64::MAX - self@.next_id - self@.primary_count(requests@, k as nat),
                    self@.primary_count(requests@, (k + 1) as nat) <= self@.primary_count(
                        requests@,
                        requests@.len(),
                    ),
            {
                if self.confidence_mode.is_primary(
                    requests[k].detections[d].confidence,
                    self.high_confidence_threshold,
                ) {
                    if count == room {
                        proof {
                            lemma_select_prefix(
                                (d + 1) as nat,
                                requests@[k as int].detections@.len(),
                                keep,
                            );
                        }
                        return false;
                    }
                    count = count + 1;
                }
            }
            room = room - count;
        }
        true
    }

    /// Advances one scene without detections, expiring idle tracks naturally,
    /// and tells which of its tracks are left, by their place before.
    pub fn skip_epochs_for_scene(&mut self, scene_id: u64, n: usize) -> (kept: Vec<usize>)
        requires
            old(self)@.wf(),
            old(self)@.epoch(scene_id) + n <= usize::MAX,
        ensures
            final(self)@.wf(),
            final(self)@.epoch(scene_id) == old(self)@.epoch(scene_id) + n,
            final(self)@ == old(self)@.after_skip(scene_id, n as nat),
            kept@ == if old(self)@.trackers.contains_key(scene_id) {
                old(self)@.trackers[scene_id].idle_places(n as nat)
            } else {
                Seq::empty()
            },
    {
        broadcast use vstd::std_specs::hash::group_hash_axioms;

        let ghost before = self@;
        let ghost held = self.trackers@;
        assert(before.trackers.contains_key(scene_id) == held.contains_key(scene_id));
        let mut kept: Vec<usize> = Vec::new();
        let found: Option<SimpleSort> = self.trackers.remove(&scene_id);
        if let Some(tracker) = found {
            let mut tracker: SimpleSort = tracker;
            assert(before.trackers[scene_id] == tracker@);
            assert(tracker@.can_wait(n as nat)) by {
                assert forall|t: int| 0 <= t < tracker@.tracks.len() implies (
                #[trigger] tracker@.tracks[t]).age + n <= usize::MAX by {
                    assert(before.trackers[scene_id].tracks[t].age < before.epoch(scene_id));
                }
            }
            kept = tracker.skip_frames(n);
            self.put_tracker(scene_id, tracker);
        }
        assert(self@.trackers =~= before.after_skip(scene_id, n as nat).trackers);
        if n > 0 {
            let epoch: usize = self.advance_epoch(scene_id, n);
        }
        assert(self@ =~= before.after_skip(scene_id, n as nat));
        proof {
            lemma_after_skip_wf(before, scene_id, n as nat);
        }
        kept
    }
}

} // verus!
