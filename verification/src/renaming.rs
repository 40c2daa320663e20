//! A scene of a batch behaves like a tracker of its own, but for the names of
//! its tracks.

use crate::batch::{BatchState, SceneRequest};
use crate::history::{event_fits, events_fit, reports_at, SceneEvent};
use crate::matrix::matrix;
use crate::select::{lemma_select, lemma_select_congruent};
use crate::track::{SimpleSortTrack, TrackRecord};
use crate::tracker::{lemma_associate_alike, TrackerState};
use vstd::prelude::*;

verus! {

/// The identities that the first `count` events give to tracks of a scene, in
/// the order in which they are created.
pub open spec fn given_ids(
    batch: BatchState,
    events: Seq<SceneEvent>,
    scene: u64,
    count: nat,
) -> Seq<u64>
    decreases count,
{
    if count == 0 {
        Seq::empty()
    } else {
        let before = given_ids(batch, events, scene, (count - 1) as nat);
        match events[count - 1] {
            SceneEvent::Frame(request) => if request.scene_id == scene {
                let now = batch.after_events(events, (count - 1) as nat);
                before + next_ids(now.next_id, now.creates(request))
            } else {
                before
            },
            SceneEvent::Skip { .. } => before,
        }
    }
}

/// `count` identities, from `next_id` on.
pub open spec fn next_ids(next_id: u64, count: nat) -> Seq<u64> {
    Seq::new(count, |k: int| (next_id + k) as u64)
}

/// The identities are in ascending order, so the renaming that replaces the
/// n-th identity of a tracker by the n-th of these keeps the order.
pub open spec fn in_order(ids: Seq<u64>) -> bool {
    forall|i: int, j: int| 0 <= i < j < ids.len() ==> #[trigger] ids[i] < #[trigger] ids[j]
}

/// `name` is the identity in `given` that stands for `id`, where identities
/// start with `start_id`.
pub open spec fn renames(given: Seq<u64>, start_id: u64, id: u64, name: u64) -> bool {
    &&& start_id <= id < start_id + given.len()
    &&& name == given[id - start_id]
}

/// Two tracks are the same but for their identities.
pub open spec fn track_renamed(
    given: Seq<u64>,
    start_id: u64,
    own: TrackRecord,
    track: TrackRecord,
) -> bool {
    &&& renames(given, start_id, own.id, track.id)
    &&& own == (TrackRecord { id: own.id, ..track })
}

/// The tracks are the same but for their identities.
pub open spec fn tracks_renamed(
    given: Seq<u64>,
    start_id: u64,
    own: Seq<TrackRecord>,
    tracks: Seq<TrackRecord>,
) -> bool {
    &&& own.len() == tracks.len()
    &&& forall|t: int|
        #![trigger own[t]]
        #![trigger tracks[t]]
        0 <= t < own.len() ==> track_renamed(given, start_id, own[t], tracks[t])
}

/// The reports are of the same places with the same confidences, under other
/// identities.
pub open spec fn reports_renamed(
    given: Seq<u64>,
    start_id: u64,
    own: Seq<SimpleSortTrack>,
    reports: Seq<SimpleSortTrack>,
) -> bool {
    &&& own.len() == reports.len()
    &&& forall|i: int|
        #![trigger own[i]]
        #![trigger reports[i]]
        0 <= i < own.len() ==> {
            &&& own[i].place == reports[i].place
            &&& own[i].confidence == reports[i].confidence
            &&& renames(given, start_id, own[i].id, reports[i].id)
        }
}

/// Two trackers have the same settings.
pub open spec fn same_settings(a: TrackerState, b: TrackerState) -> bool {
    a == (TrackerState { next_id: a.next_id, tracks: a.tracks, ..b })
}

/// Every tracker of the batch has its settings.
spec fn settings_shared(batch: BatchState) -> bool {
    forall|scene: u64| #[trigger]
        batch.trackers.contains_key(scene) ==> same_settings(
            batch.trackers[scene],
            batch.blank(),
        )
}

/// More identities do not change what an identity stands for.
proof fn lemma_renamed_on(
    given: Seq<u64>,
    more: Seq<u64>,
    start_id: u64,
    own: Seq<TrackRecord>,
    tracks: Seq<TrackRecord>,
)
    requires
        tracks_renamed(given, start_id, own, tracks),
    ensures
        tracks_renamed(given + more, start_id, own, tracks),
{
    assert forall|t: int|
        #![trigger own[t]]
        #![trigger tracks[t]]
        0 <= t < own.len() implies track_renamed(given + more, start_id, own[t], tracks[t]) by {
        assert(track_renamed(given, start_id, own[t], tracks[t]));
    }
}

/// Trackers that are the same but for identities report the same places and
/// confidences.
proof fn lemma_reports_renamed(
    given: Seq<u64>,
    start_id: u64,
    own: TrackerState,
    state: TrackerState,
)
    requires
        same_settings(own, state),
        own.tracks.len() <= usize::MAX,
        tracks_renamed(given, start_id, own.tracks, state.tracks),
    ensures
        reports_renamed(given, start_id, own.reported(), state.reported()),
{
    let keep = |t: int| own.tracks[t].reportable(own.min_hits);
    assert forall|t: int| 0 <= t < own.tracks.len() implies #[trigger] keep(t)
        == state.tracks[t].reportable(state.min_hits) by {
        assert(track_renamed(given, start_id, own.tracks[t], state.tracks[t]));
    }
    lemma_select_congruent(
        own.tracks.len(),
        keep,
        |t: int| state.tracks[t].reportable(state.min_hits),
    );
    lemma_select(own.tracks.len(), keep);
    let places = own.reported_places();
    let a = own.reported();
    let b = state.reported();
    assert(places == state.reported_places());
    assert forall|i: int|
        #![trigger a[i]]
        #![trigger b[i]]
        0 <= i < a.len() implies {
        &&& a[i].place == b[i].place
        &&& a[i].confidence == b[i].confidence
        &&& renames(given, start_id, a[i].id, b[i].id)
    } by {
        assert(places[i] < own.tracks.len());
        assert(track_renamed(
            given,
            start_id,
            own.tracks[places[i] as int],
            state.tracks[places[i] as int],
        ));
    }
}

/// A frame keeps two trackers the same but for identities.
proof fn lemma_frame_renamed(
    given: Seq<u64>,
    start_id: u64,
    own: TrackerState,
    state: TrackerState,
    request: SceneRequest,
)
    requires
        same_settings(own, state),
        tracks_renamed(given, start_id, own.tracks, state.tracks),
        own.next_id == start_id + given.len(),
        ({
            let created = state.created(
                request.detections@,
                state.first_pass(request.detections@, matrix(request.overlaps@)),
            );
            &&& state.next_id + created.len() <= u64::MAX
            &&& own.next_id + created.len() <= u64::MAX
            &&& state.tracks.len() + created.len() <= usize::MAX
        }),
    ensures
        ({
            let created = state.created(
                request.detections@,
                state.first_pass(request.detections@, matrix(request.overlaps@)),
            );
            let more = given + next_ids(state.next_id, created.len());
            let own_after = own.after_request(request);
            let after = state.after_request(request);
            &&& same_settings(own_after, after)
            &&& tracks_renamed(more, start_id, own_after.tracks, after.tracks)
            &&& own_after.next_id == start_id + more.len()
            &&& own_after.tracks.len() <= usize::MAX
        }),
{
    let detections = request.detections@;
    let overlaps = matrix(request.overlaps@);
    let first = state.first_pass(detections, overlaps);
    let second = state.second_pass(detections, overlaps);
    lemma_associate_alike(state, own, detections, overlaps);
    let created = state.created(detections, first);
    let more = given + next_ids(state.next_id, created.len());
    lemma_renamed_on(
        given,
        next_ids(state.next_id, created.len()),
        start_id,
        own.tracks,
        state.tracks,
    );
    let own_all = own.all_tracks(detections, first, second);
    let all = state.all_tracks(detections, first, second);
    assert(own_all.len() == all.len());
    assert forall|k: int|
        #![trigger own_all[k]]
        #![trigger all[k]]
        0 <= k < all.len() implies track_renamed(more, start_id, own_all[k], all[k]) by {
        if k < state.tracks.len() {
            assert(track_renamed(more, start_id, own.tracks[k], state.tracks[k]));
        } else {
            let n = k - state.tracks.len();
            assert(own_all[k].id == own.next_id + n);
            assert(more[given.len() + n] == state.next_id + n);
        }
    }
    let keep = |k: int| own_all[k].time_since_update <= own.max_age;
    assert forall|k: int| 0 <= k < all.len() implies #[trigger] keep(k) == (
    all[k].time_since_update <= state.max_age) by {
        assert(track_renamed(more, start_id, own_all[k], all[k]));
    }
    lemma_select_congruent(all.len(), keep, |k: int| all[k].time_since_update <= state.max_age);
    lemma_select(all.len(), keep);
    let kept = own.kept(detections, first, second);
    assert(kept == state.kept(detections, first, second));
    let own_after = own.after_request(request);
    let after = state.after_request(request);
    assert forall|t: int|
        #![trigger own_after.tracks[t]]
        #![trigger after.tracks[t]]
        0 <= t < own_after.tracks.len() implies track_renamed(
        more,
        start_id,
        own_after.tracks[t],
        after.tracks[t],
    ) by {
        assert(kept[t] < all.len());
        assert(own_after.tracks[t] == own_all[kept[t] as int]);
        assert(after.tracks[t] == all[kept[t] as int]);
    }
}

/// Frames without detections keep two trackers the same but for identities.
proof fn lemma_idle_renamed(
    given: Seq<u64>,
    start_id: u64,
    own: TrackerState,
    state: TrackerState,
    frames: nat,
)
    requires
        same_settings(own, state),
        tracks_renamed(given, start_id, own.tracks, state.tracks),
        state.tracks.len() <= usize::MAX,
    ensures
        tracks_renamed(given, start_id, own.idle(frames).tracks, state.idle(frames).tracks),
{
    let keep = |t: int| own.tracks[t].time_since_update + frames <= own.max_age;
    assert forall|t: int| 0 <= t < own.tracks.len() implies #[trigger] keep(t) == (
    state.tracks[t].time_since_update + frames <= state.max_age) by {
        assert(track_renamed(given, start_id, own.tracks[t], state.tracks[t]));
    }
    lemma_select_congruent(
        own.tracks.len(),
        keep,
        |t: int| state.tracks[t].time_since_update + frames <= state.max_age,
    );
    lemma_select(own.tracks.len(), keep);
    let places = own.idle_places(frames);
    assert(places == state.idle_places(frames));
    let a = own.idle(frames).tracks;
    let b = state.idle(frames).tracks;
    assert forall|t: int|
        #![trigger a[t]]
        #![trigger b[t]]
        0 <= t < a.len() implies track_renamed(given, start_id, a[t], b[t]) by {
        assert(places[t] < own.tracks.len());
        assert(track_renamed(
            given,
            start_id,
            own.tracks[places[t] as int],
            state.tracks[places[t] as int],
        ));
    }
}

/// Events keep the settings of the batch, and its trackers have them.
proof fn lemma_events_settings(batch: BatchState, events: Seq<SceneEvent>, count: nat)
    requires
        batch.is_new(),
    ensures
        ({
            let now = batch.after_events(events, count);
            &&& now == (BatchState {
                next_id: now.next_id,
                trackers: now.trackers,
                epochs: now.epochs,
                ..batch
            })
            &&& settings_shared(now)
        }),
    decreases count,
{
    if count > 0 {
        let before = batch.after_events(events, (count - 1) as nat);
        let now = batch.after_events(events, count);
        lemma_events_settings(batch, events, (count - 1) as nat);
        assert forall|scene: u64| #[trigger] now.trackers.contains_key(scene) implies
            same_settings(now.trackers[scene], now.blank()) by {
            if scene != events[count - 1].scene_id() {
                assert(before.trackers.contains_key(scene));
            } else if events[count - 1] is Skip {
                assert(before.trackers.contains_key(scene));
            }
        }
    }
}

/// The identities that later events give come after those of earlier ones.
proof fn lemma_given_on(
    batch: BatchState,
    events: Seq<SceneEvent>,
    scene: u64,
    a: nat,
    b: nat,
)
    requires
        a <= b,
    ensures
        given_ids(batch, events, scene, a).len() <= given_ids(batch, events, scene, b).len(),
        forall|i: int|
            0 <= i < given_ids(batch, events, scene, a).len() ==> #[trigger] given_ids(
                batch,
                events,
                scene,
                b,
            )[i] == given_ids(batch, events, scene, a)[i],
    decreases b,
{
    if a < b {
        lemma_given_on(batch, events, scene, a, (b - 1) as nat);
    }
}

/// The identities given to the tracks of a scene ascend, and are below the
/// next identity of the batch.
pub proof fn lemma_given_in_order(
    batch: BatchState,
    events: Seq<SceneEvent>,
    scene: u64,
    count: nat,
)
    requires
        events_fit(batch, events),
        count <= events.len(),
    ensures
        in_order(given_ids(batch, events, scene, count)),
        forall|i: int|
            0 <= i < given_ids(batch, events, scene, count).len() ==> (#[trigger] given_ids(
                batch,
                events,
                scene,
                count,
            )[i]) < batch.after_events(events, count).next_id,
    decreases count,
{
    if count > 0 {
        let k = count - 1;
        lemma_given_in_order(batch, events, scene, k as nat);
        assert(event_fits(batch, events, k));
        let before = given_ids(batch, events, scene, k as nat);
        let given = given_ids(batch, events, scene, count);
        let now = batch.after_events(events, k as nat);
        assert forall|i: int, j: int| 0 <= i < j < given.len() implies #[trigger] given[i]
            < #[trigger] given[j] by {
            if j < before.len() {
                assert(before[i] < before[j]);
            } else if i < before.len() {
                assert(before[i] < now.next_id);
            }
        }
        assert forall|i: int| 0 <= i < given.len() implies (#[trigger] given[i])
            < batch.after_events(events, count).next_id by {
            if i < before.len() {
                assert(before[i] < now.next_id);
            }
        }
    }
}

/// The tracker that a scene would have on its own, before its first frame.
pub open spec fn own_tracker(batch: BatchState, start_id: u64) -> TrackerState {
    TrackerState {
        max_age: batch.max_age,
        min_hits: batch.min_hits,
        iou_threshold: batch.iou_threshold,
        confidence_mode: batch.confidence_mode,
        high_confidence_threshold: batch.high_confidence_threshold,
        next_id: start_id,
        tracks: Seq::empty(),
    }
}

/// A scene of a new batch and a tracker of its own with the same settings, fed
/// the same frames, whatever happens in other scenes, have the same tracks but
/// for their identities, which one renaming matches.
pub proof fn lemma_scene_is_tracker(
    batch: BatchState,
    events: Seq<SceneEvent>,
    scene: u64,
    start_id: u64,
    count: nat,
)
    requires
        batch.is_new(),
        events_fit(batch, events),
        count <= events.len(),
        start_id + given_ids(batch, events, scene, events.len()).len() <= u64::MAX,
    ensures
        ({
            let own = own_tracker(batch, start_id).after_events_of(events, scene, count);
            let given = given_ids(batch, events, scene, count);
            let tracks = batch.after_events(events, count).tracks(scene);
            &&& same_settings(own, own_tracker(batch, start_id))
            &&& own.next_id == start_id + given.len()
            &&& tracks_renamed(given, start_id, own.tracks, tracks)
        }),
    decreases count,
{
    if count > 0 {
        let k = count - 1;
        let event = events[k];
        let before = batch.after_events(events, k as nat);
        let now = batch.after_events(events, count);
        let own = own_tracker(batch, start_id).after_events_of(events, scene, k as nat);
        let given = given_ids(batch, events, scene, k as nat);
        lemma_scene_is_tracker(batch, events, scene, start_id, k as nat);
        lemma_events_settings(batch, events, k as nat);
        lemma_given_on(batch, events, scene, count, events.len());
        assert(event_fits(batch, events, k));
        if event.scene_id() == scene {
            match event {
                SceneEvent::Frame(request) => {
                    lemma_frame_renamed(given, start_id, own, before.tracker(scene), request);
                },
                SceneEvent::Skip { frames, .. } => {
                    if before.trackers.contains_key(scene) {
                        lemma_idle_renamed(
                            given,
                            start_id,
                            own,
                            before.trackers[scene],
                            frames,
                        );
                    } else {
                        assert(own.idle(frames).tracks.len() == 0);
                    }
                },
            }
        } else {
            assert(now.tracks(scene) == before.tracks(scene));
        }
    }
}

/// A scene of a new batch and a tracker of its own with the same settings, fed
/// the same frames, whatever happens in other scenes, report the same places
/// and confidences in every event, with identities that one renaming matches
/// over the whole course; it keeps their order.
pub proof fn lemma_scene_reports_like_tracker(
    batch: BatchState,
    events: Seq<SceneEvent>,
    scene: u64,
    start_id: u64,
    k: int,
)
    requires
        batch.is_new(),
        events_fit(batch, events),
        0 <= k < events.len(),
        events[k].scene_id() == scene,
        start_id + given_ids(batch, events, scene, events.len()).len() <= u64::MAX,
    ensures
        reports_renamed(
            given_ids(batch, events, scene, events.len()),
            start_id,
            own_tracker(batch, start_id).after_events_of(events, scene, k as nat).event_reports(
                events[k],
            ),
            reports_at(batch, events, k),
        ),
        in_order(given_ids(batch, events, scene, events.len())),
{
    let all_given = given_ids(batch, events, scene, events.len());
    let before = batch.after_events(events, k as nat);
    let own = own_tracker(batch, start_id).after_events_of(events, scene, k as nat);
    let given = given_ids(batch, events, scene, k as nat);
    lemma_given_in_order(batch, events, scene, events.len());
    lemma_scene_is_tracker(batch, events, scene, start_id, k as nat);
    lemma_events_settings(batch, events, k as nat);
    lemma_given_on(batch, events, scene, (k + 1) as nat, events.len());
    assert(event_fits(batch, events, k));
    match events[k] {
        SceneEvent::Frame(request) => {
            let state = before.tracker(scene);
            let more = given_ids(batch, events, scene, (k + 1) as nat);
            lemma_frame_renamed(given, start_id, own, state, request);
            lemma_reports_renamed(
                more,
                start_id,
                own.after_request(request),
                state.after_request(request),
            );
            let a = own.after_request(request).reported();
            let b = state.after_request(request).reported();
            assert forall|i: int|
                #![trigger a[i]]
                #![trigger b[i]]
                0 <= i < a.len() implies renames(all_given, start_id, a[i].id, b[i].id) by {
                assert(renames(more, start_id, a[i].id, b[i].id));
                assert(all_given[a[i].id - start_id] == more[a[i].id - start_id]);
            }
        },
        SceneEvent::Skip { .. } => {},
    }
}

} // verus!
