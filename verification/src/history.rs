//! What holds over any course of events in the scenes of a batch.

use crate::batch::{BatchState, SceneRequest, SceneUpdate};
use crate::laws::{
    batch_ids_unique, ids_unique, lemma_created_are_reported, lemma_new_batch_ids_unique,
    lemma_reported, lemma_scene_ids_unique, lemma_skip_ids_unique, lemma_tracks_keep_identity,
    origin,
};
use crate::matrix::matrix;
use crate::select::lemma_select;
use crate::track::{SimpleSortTrack, TrackRecord};
use crate::tracker::TrackerState;
use vstd::prelude::*;

verus! {

/// Something that happens in a scene: a frame, or frames without detections.
pub enum SceneEvent {
    Frame(SceneRequest),
    Skip { scene_id: u64, frames: nat },
}

impl SceneEvent {
    pub open spec fn scene_id(self) -> u64 {
        match self {
            SceneEvent::Frame(request) => request.scene_id,
            SceneEvent::Skip { scene_id, .. } => scene_id,
        }
    }
}

impl TrackerState {
    /// The tracker after a frame with these detections and overlaps.
    pub open spec fn after_request(self, request: SceneRequest) -> TrackerState {
        let overlaps = matrix(request.overlaps@);
        self.after_frame(
            request.detections@,
            self.first_pass(request.detections@, overlaps),
            self.second_pass(request.detections@, overlaps),
        )
    }

    /// The tracker after an event.
    pub open spec fn after_event(self, event: SceneEvent) -> TrackerState {
        match event {
            SceneEvent::Frame(request) => self.after_request(request),
            SceneEvent::Skip { frames, .. } => self.idle(frames),
        }
    }

    /// What an event reports.
    pub open spec fn event_reports(self, event: SceneEvent) -> Seq<SimpleSortTrack> {
        match event {
            SceneEvent::Frame(request) => self.after_request(request).reported(),
            SceneEvent::Skip { .. } => Seq::empty(),
        }
    }

    /// The tracker after those of the first `count` events that are in `scene`.
    pub open spec fn after_events_of(
        self,
        events: Seq<SceneEvent>,
        scene: u64,
        count: nat,
    ) -> TrackerState
        decreases count,
    {
        if count == 0 {
            self
        } else {
            let before = self.after_events_of(events, scene, (count - 1) as nat);
            if events[count - 1].scene_id() == scene {
                before.after_event(events[count - 1])
            } else {
                before
            }
        }
    }
}

impl BatchState {
    /// The batch after an event.
    pub open spec fn after_event(self, event: SceneEvent) -> BatchState {
        match event {
            SceneEvent::Frame(request) => self.after_request(request),
            SceneEvent::Skip { scene_id, frames } => self.after_skip(scene_id, frames),
        }
    }

    /// The batch after the first `count` events.
    pub open spec fn after_events(self, events: Seq<SceneEvent>, count: nat) -> BatchState
        decreases count,
    {
        if count == 0 {
            self
        } else {
            self.after_events(events, (count - 1) as nat).after_event(events[count - 1])
        }
    }

    /// What an event reports.
    pub open spec fn event_reports(self, event: SceneEvent) -> Seq<SimpleSortTrack> {
        self.tracker(event.scene_id()).event_reports(event)
    }

    /// There are identities for an event, and room for its tracks.
    pub open spec fn has_room_for_event(self, event: SceneEvent) -> bool {
        match event {
            SceneEvent::Frame(request) => {
                &&& self.next_id + self.creates(request) <= u64::MAX
                &&& self.tracks(request.scene_id).len() + self.creates(request) <= usize::MAX
            },
            SceneEvent::Skip { scene_id, .. } => self.tracks(scene_id).len() <= usize::MAX,
        }
    }

    /// No scene has a tracker yet.
    pub open spec fn is_new(self) -> bool {
        self.trackers == Map::<u64, TrackerState>::empty()
    }
}

/// There is room for event `k` after those before it.
pub open spec fn event_fits(batch: BatchState, events: Seq<SceneEvent>, k: int) -> bool {
    batch.after_events(events, k as nat).has_room_for_event(events[k])
}

/// There is room for each event after those before it.
pub open spec fn events_fit(batch: BatchState, events: Seq<SceneEvent>) -> bool {
    forall|k: int| 0 <= k < events.len() ==> #[trigger] event_fits(batch, events, k)
}

/// What event `k` reports.
pub open spec fn reports_at(
    batch: BatchState,
    events: Seq<SceneEvent>,
    k: int,
) -> Seq<SimpleSortTrack> {
    batch.after_events(events, k as nat).event_reports(events[k])
}

/// Event `k` reports an identity.
pub open spec fn reports_id(
    batch: BatchState,
    events: Seq<SceneEvent>,
    k: int,
    id: u64,
) -> bool {
    exists|i: int|
        0 <= i < reports_at(batch, events, k).len() && (#[trigger] reports_at(
            batch,
            events,
            k,
        )[i]).id == id
}

/// One of the first `count` events reports an identity, in whatever scene.
pub open spec fn was_reported(
    batch: BatchState,
    events: Seq<SceneEvent>,
    count: nat,
    id: u64,
) -> bool {
    exists|k: int| 0 <= k < count && #[trigger] reports_id(batch, events, k, id)
}

/// The identities of the tracks ascend.
pub open spec fn ids_ascend(tracks: Seq<TrackRecord>) -> bool {
    forall|i: int, j: int|
        0 <= i < j < tracks.len() ==> (#[trigger] tracks[i]).id < (#[trigger] tracks[j]).id
}

/// The requests as events, one frame each.
pub open spec fn frames_of(requests: Seq<SceneRequest>) -> Seq<SceneEvent> {
    Seq::new(requests.len(), |k: int| SceneEvent::Frame(requests[k]))
}

/// A batch request is one frame after the other.
pub proof fn lemma_requests_are_events(
    batch: BatchState,
    requests: Seq<SceneRequest>,
    count: nat,
)
    requires
        count <= requests.len(),
    ensures
        batch.after_events(frames_of(requests), count) == batch.after_requests(requests, count),
    decreases count,
{
    if count > 0 {
        lemma_requests_are_events(batch, requests, (count - 1) as nat);
    }
}

/// The answer to a request reports what its frame reports, and there was room
/// for its tracks.
pub proof fn lemma_answer_is_event(
    batch: BatchState,
    request: SceneRequest,
    update: SceneUpdate,
)
    requires
        batch.answers(request, update),
        batch.has_room_for(request),
    ensures
        update.frame.reported@ == batch.event_reports(SceneEvent::Frame(request)),
        batch.has_room_for_event(SceneEvent::Frame(request)),
{
}

/// A frame leaves tracks with ascending identities, each of them one of before
/// or one that the frame reports, and reports each identity in turn, each of
/// them one of before or not below the next identity of before.
proof fn lemma_frame_identities(state: TrackerState, request: SceneRequest)
    requires
        ids_ascend(state.tracks),
        ids_unique(state.tracks, state.next_id),
        ({
            let created = state.created(
                request.detections@,
                state.first_pass(request.detections@, matrix(request.overlaps@)),
            );
            &&& state.next_id + created.len() <= u64::MAX
            &&& state.tracks.len() + created.len() <= usize::MAX
        }),
    ensures
        ({
            let after = state.after_request(request);
            let reported = after.reported();
            &&& ids_ascend(after.tracks)
            &&& state.next_id <= after.next_id
            &&& forall|t: int|
                0 <= t < after.tracks.len() ==> (#[trigger] after.tracks[t]).id < after.next_id
            &&& forall|t: int|
                0 <= t < after.tracks.len() ==> holds_id(
                    state.tracks,
                    (#[trigger] after.tracks[t]).id,
                ) || lists_id(reported, after.tracks[t].id)
            &&& forall|i: int|
                0 <= i < reported.len() ==> holds_id(state.tracks, (#[trigger] reported[i]).id)
                    || state.next_id <= reported[i].id
            &&& forall|i: int| 0 <= i < reported.len() ==> (#[trigger] reported[i]).id < after.next_id
            &&& forall|i: int, j: int|
                0 <= i < j < reported.len() ==> (#[trigger] reported[i]).id < (
                #[trigger] reported[j]).id
        }),
{
    let detections = request.detections@;
    let first = state.first_pass(detections, matrix(request.overlaps@));
    let second = state.second_pass(detections, matrix(request.overlaps@));
    let after = state.after_request(request);
    let reported = after.reported();
    let all = state.all_tracks(detections, first, second);
    assert(all.len() == state.tracks.len() + state.created(detections, first).len());
    assert forall|t: int| 0 <= t < after.tracks.len() implies (#[trigger] after.tracks[t]).id
        < after.next_id && (holds_id(state.tracks, after.tracks[t].id) || (state.next_id
        <= after.tracks[t].id && lists_id(reported, after.tracks[t].id))) by {
        lemma_tracks_keep_identity(state, detections, first, second, t);
        let from = origin(state, detections, first, second, t);
        if from < state.tracks.len() {
            assert(state.tracks[from].id == after.tracks[t].id);
        } else {
            let r = lemma_created_are_reported(
                state,
                detections,
                first,
                second,
                from - state.tracks.len(),
            );
            assert(reported[r].id == after.tracks[t].id);
        }
    }
    assert forall|t: int, u: int| 0 <= t < u < after.tracks.len() implies (
    #[trigger] after.tracks[t]).id < (#[trigger] after.tracks[u]).id by {
        lemma_tracks_keep_identity(state, detections, first, second, t);
        lemma_tracks_keep_identity(state, detections, first, second, u);
        let a = origin(state, detections, first, second, t);
        let b = origin(state, detections, first, second, u);
        assert(a < b);
        if b < state.tracks.len() {
            assert(state.tracks[a].id < state.tracks[b].id);
        } else if a < state.tracks.len() {
            assert(state.tracks[a].id < state.next_id);
        }
    }
    lemma_select(all.len(), |k: int| all[k].time_since_update <= state.max_age);
    lemma_reported(after);
    assert forall|i: int| 0 <= i < reported.len() implies (holds_id(
        state.tracks,
        (#[trigger] reported[i]).id,
    ) || state.next_id <= reported[i].id) && reported[i].id < after.next_id by {
        assert(after.tracks[reported[i].place as int].id == reported[i].id);
    }
    assert forall|i: int, j: int| 0 <= i < j < reported.len() implies (#[trigger] reported[i]).id
        < (#[trigger] reported[j]).id by {
        assert(after.tracks[reported[i].place as int].id == reported[i].id);
        assert(after.tracks[reported[j].place as int].id == reported[j].id);
    }
}

/// One of the tracks has this identity.
pub open spec fn holds_id(tracks: Seq<TrackRecord>, id: u64) -> bool {
    exists|t: int| 0 <= t < tracks.len() && (#[trigger] tracks[t]).id == id
}

/// One of the reports is of this identity.
pub open spec fn lists_id(reported: Seq<SimpleSortTrack>, id: u64) -> bool {
    exists|i: int| 0 <= i < reported.len() && (#[trigger] reported[i]).id == id
}

/// Waiting keeps tracks and their order.
proof fn lemma_idle_identities(state: TrackerState, frames: nat)
    requires
        state.tracks.len() <= usize::MAX,
        ids_ascend(state.tracks),
    ensures
        ids_ascend(state.idle(frames).tracks),
        forall|t: int|
            0 <= t < state.idle(frames).tracks.len() ==> holds_id(
                state.tracks,
                (#[trigger] state.idle(frames).tracks[t]).id,
            ),
{
    let places = state.idle_places(frames);
    let after = state.idle(frames);
    lemma_select(
        state.tracks.len(),
        |t: int| state.tracks[t].time_since_update + frames <= state.max_age,
    );
    assert forall|t: int| 0 <= t < after.tracks.len() implies holds_id(
        state.tracks,
        (#[trigger] after.tracks[t]).id,
    ) by {
        assert(places[t] < state.tracks.len());
        assert(state.tracks[places[t] as int].id == after.tracks[t].id);
    }
    assert forall|t: int, u: int| 0 <= t < u < after.tracks.len() implies (
    #[trigger] after.tracks[t]).id < (#[trigger] after.tracks[u]).id by {
        assert(places[t] < places[u]);
        assert(state.tracks[places[t] as int].id < state.tracks[places[u] as int].id);
    }
}

/// Over any course of events from a new batch on: the identities of the tracks
/// of a scene ascend, every live track has been reported, and every reported
/// identity is below the next one.
pub proof fn lemma_history(batch: BatchState, events: Seq<SceneEvent>, count: nat)
    requires
        batch.is_new(),
        events_fit(batch, events),
        count <= events.len(),
    ensures
        ({
            let now = batch.after_events(events, count);
            &&& forall|scene: u64| #[trigger] ids_ascend(now.tracks(scene))
            &&& forall|scene: u64, t: int|
                0 <= t < now.tracks(scene).len() ==> was_reported(
                    batch,
                    events,
                    count,
                    (#[trigger] now.tracks(scene)[t]).id,
                )
            &&& forall|id: u64| #[trigger]
                was_reported(batch, events, count, id) ==> id < now.next_id
        }),
    decreases count,
{
    let now = batch.after_events(events, count);
    if count > 0 {
        let k = count - 1;
        let event = events[k];
        let scene = event.scene_id();
        let before = batch.after_events(events, k as nat);
        let state = before.tracker(scene);
        lemma_history(batch, events, k as nat);
        assert(event_fits(batch, events, k));
        lemma_live_below(batch, events, k as nat);
        assert(ids_ascend(before.tracks(scene)));
        assert(ids_unique(state.tracks, state.next_id));
        match event {
            SceneEvent::Frame(request) => {
                lemma_frame_identities(state, request);
                assert(now.tracks(scene) == state.after_request(request).tracks);
            },
            SceneEvent::Skip { frames, .. } => {
                if before.trackers.contains_key(scene) {
                    lemma_idle_identities(before.trackers[scene], frames);
                }
            },
        }
        assert forall|other: u64| #[trigger] ids_ascend(now.tracks(other)) by {
            assert(ids_ascend(before.tracks(other)));
            if other != scene {
                assert(now.tracks(other) == before.tracks(other));
            }
        }
        assert forall|other: u64, t: int| 0 <= t < now.tracks(other).len() implies was_reported(
            batch,
            events,
            count,
            (#[trigger] now.tracks(other)[t]).id,
        ) by {
            let id = now.tracks(other)[t].id;
            if lists_id(reports_at(batch, events, k), id) {
                assert(reports_id(batch, events, k, id));
            } else {
                assert(holds_id(before.tracks(other), id)) by {
                    if other != scene {
                        assert(before.tracks(other)[t].id == id);
                    }
                }
                let u = choose|u: int|
                    0 <= u < before.tracks(other).len() && (#[trigger] before.tracks(other)[u]).id
                        == id;
                assert(was_reported(batch, events, k as nat, before.tracks(other)[u].id));
                lemma_reported_before(batch, events, k as nat, count, id);
            }
        }
        assert forall|id: u64| #[trigger] was_reported(batch, events, count, id) implies id
            < now.next_id by {
            let l = choose|l: int| 0 <= l < count && #[trigger] reports_id(batch, events, l, id);
            if l < k {
                assert(was_reported(batch, events, k as nat, id));
            }
        }
    }
}

/// Over any course of events from a new batch on, no two live tracks share an
/// identity, within a scene or in two scenes.
pub proof fn lemma_history_ids_unique(batch: BatchState, events: Seq<SceneEvent>, count: nat)
    requires
        batch.is_new(),
        events_fit(batch, events),
        count <= events.len(),
    ensures
        batch_ids_unique(batch.after_events(events, count)),
    decreases count,
{
    if count == 0 {
        lemma_new_batch_ids_unique(batch);
    } else {
        let k = count - 1;
        let before = batch.after_events(events, k as nat);
        lemma_history_ids_unique(batch, events, k as nat);
        assert(event_fits(batch, events, k));
        match events[k] {
            SceneEvent::Frame(request) => {
                let state = before.tracker(request.scene_id);
                let overlaps = matrix(request.overlaps@);
                lemma_scene_ids_unique(
                    before,
                    request.scene_id,
                    request.detections@,
                    state.first_pass(request.detections@, overlaps),
                    state.second_pass(request.detections@, overlaps),
                );
            },
            SceneEvent::Skip { scene_id, frames } => {
                lemma_skip_ids_unique(before, scene_id, frames);
            },
        }
    }
}

/// What was reported earlier was reported.
proof fn lemma_reported_before(
    batch: BatchState,
    events: Seq<SceneEvent>,
    a: nat,
    b: nat,
    id: u64,
)
    requires
        a <= b,
        was_reported(batch, events, a, id),
    ensures
        was_reported(batch, events, b, id),
{
    let k = choose|k: int| 0 <= k < a && #[trigger] reports_id(batch, events, k, id);
    assert(reports_id(batch, events, k, id));
}

/// Live identities are below the next one, and no two tracks of a scene share
/// one.
proof fn lemma_live_below(batch: BatchState, events: Seq<SceneEvent>, count: nat)
    requires
        ({
            let now = batch.after_events(events, count);
            &&& forall|scene: u64| #[trigger] ids_ascend(now.tracks(scene))
            &&& forall|scene: u64, t: int|
                0 <= t < now.tracks(scene).len() ==> was_reported(
                    batch,
                    events,
                    count,
                    (#[trigger] now.tracks(scene)[t]).id,
                )
            &&& forall|id: u64| #[trigger]
                was_reported(batch, events, count, id) ==> id < now.next_id
        }),
    ensures
        forall|scene: u64| #[trigger]
            ids_unique(
                batch.after_events(events, count).tracks(scene),
                batch.after_events(events, count).next_id,
            ),
{
    let now = batch.after_events(events, count);
    assert forall|scene: u64| #[trigger] ids_unique(now.tracks(scene), now.next_id) by {
        assert(ids_ascend(now.tracks(scene)));
        assert forall|t: int| 0 <= t < now.tracks(scene).len() implies (
        #[trigger] now.tracks(scene)[t]).id < now.next_id by {
            assert(was_reported(batch, events, count, now.tracks(scene)[t].id));
        }
    }
}

/// Over any course of events from a new batch on: an identity that an event
/// reports and that was not reported before exceeds all that were, in whatever
/// scene; and one event reports its identities in ascending order.
pub proof fn lemma_new_identities_exceed(
    batch: BatchState,
    events: Seq<SceneEvent>,
    k: int,
    i: int,
)
    requires
        batch.is_new(),
        events_fit(batch, events),
        0 <= k < events.len(),
        0 <= i < reports_at(batch, events, k).len(),
    ensures
        was_reported(batch, events, k as nat, reports_at(batch, events, k)[i].id) || forall|id: u64|
            #[trigger]
            was_reported(batch, events, k as nat, id) ==> id < reports_at(batch, events, k)[i].id,
        forall|j: int|
            i < j < reports_at(batch, events, k).len() ==> reports_at(batch, events, k)[i].id < (
            #[trigger] reports_at(batch, events, k)[j]).id,
{
    let before = batch.after_events(events, k as nat);
    let scene = events[k].scene_id();
    let state = before.tracker(scene);
    let reported = reports_at(batch, events, k);
    lemma_history(batch, events, k as nat);
    lemma_live_below(batch, events, k as nat);
    assert(event_fits(batch, events, k));
    assert(ids_ascend(before.tracks(scene)));
    assert(ids_unique(state.tracks, state.next_id));
    match events[k] {
        SceneEvent::Frame(request) => {
            lemma_frame_identities(state, request);
            let id = reported[i].id;
            if holds_id(state.tracks, id) {
                let t = choose|t: int|
                    0 <= t < state.tracks.len() && (#[trigger] state.tracks[t]).id == id;
                assert(before.tracks(scene)[t].id == id);
            }
        },
        SceneEvent::Skip { .. } => {},
    }
}

} // verus!
