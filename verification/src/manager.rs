//! All tracks together: who owns which channel, where tracks are born, which of two
//! converging tracks survives, and what is given up when there are too many.

use crate::events::{
    batch_order, event_track_id, sort_batch, sort_by_time, spec_event_track_id, time_order,
    ClosureKind, DecoderEvent,
};
use crate::level::Level;
use crate::lifecycle::{CloseCounts, CloseReason, DetectorConfig, LifecycleEvent};
use crate::track::{
    in_band, DecoderFeed, HopObservation, Track, TrackModel, CHANNEL, MAX_CHANNELS,
};
use vstd::prelude::*;

verus! {

/// The end of a track.
#[derive(Debug, Clone, Copy, PartialEq, Eq, Structural)]
pub struct Closure {
    pub track_id: u32,
    pub kind: ClosureKind,
    /// The signal was seen to end: the decoder may resolve what it has begun. Otherwise it
    /// may only give its final speed.
    pub forced: bool,
    /// The track has reported something before, so its decoder is flushed and its end is
    /// reported. Otherwise the decoder is dropped in silence.
    pub reported: bool,
}

/// What one hop asks of the decoders.
pub struct StepOutcome {
    /// What the decoders are given, in the order of the tracks.
    pub feeds: Vec<DecoderFeed>,
    /// The tracks that were confirmed on this hop.
    pub promoted: Vec<DecoderEvent>,
    /// The tracks that ended on this hop, after they were fed.
    pub closures: Vec<Closure>,
}

/// The mathematical counterpart of [`StepOutcome`].
#[verifier::ext_equal]
pub ghost struct OutcomeModel {
    pub feeds: Seq<DecoderFeed>,
    pub promoted: Seq<DecoderEvent>,
    pub closures: Seq<Closure>,
}

impl View for StepOutcome {
    type V = OutcomeModel;

    open spec fn view(&self) -> OutcomeModel {
        OutcomeModel {
            feeds: self.feeds@,
            promoted: self.promoted@,
            closures: self.closures@,
        }
    }
}

/// The tracks after every one of them took a hop.
#[verifier::ext_equal]
pub ghost struct DrivenModel {
    pub kept: Seq<TrackModel>,
    pub outcome: OutcomeModel,
    pub counts: CloseCounts,
    pub cooldown: Seq<nat>,
}

/// The closure of a track that its own lifecycle ended.
pub open spec fn lifecycle_closure(track: TrackModel, reason: CloseReason) -> Closure {
    Closure {
        track_id: track.id,
        kind: if reason == CloseReason::HangExpired {
            ClosureKind::SignalEnded
        } else {
            ClosureKind::Bookkeeping { survivor_track_id: None }
        },
        forced: reason == CloseReason::HangExpired,
        reported: track.has_emitted,
    }
}

/// The channels of `track` are barred until hop `until`.
pub open spec fn barred(cooldown: Seq<nat>, track: TrackModel, until: nat) -> Seq<nat> {
    Seq::new(
        cooldown.len(),
        |k: int|
            if track.owns(cooldown.len(), k) {
                until
            } else {
                cooldown[k]
            },
    )
}

/// A channel without rise is free again.
pub open spec fn freed(cooldown: Seq<nat>, rise: Seq<bool>) -> Seq<nat> {
    Seq::new(
        cooldown.len(),
        |k: int|
            if rise[k] {
                cooldown[k]
            } else {
                0
            },
    )
}

/// Every track takes the hop, in the order of their identities.
pub open spec fn drive_all(
    tracks: Seq<TrackModel>,
    hop: HopObservation,
    sample_ts: u64,
    refine: bool,
    until: nat,
    start: DrivenModel,
) -> DrivenModel
    decreases tracks.len(),
{
    if tracks.len() == 0 {
        start
    } else {
        let done = drive_all(tracks.drop_last(), hop, sample_ts, refine, until, start);
        let n = start.cooldown.len();
        let track = tracks.last();
        let moved = track.moved(hop, n);
        let k = track.channel(hop, n);
        match track.event(hop, n) {
            LifecycleEvent::Closed(reason) => DrivenModel {
                outcome: OutcomeModel {
                    closures: done.outcome.closures.push(lifecycle_closure(moved, reason)),
                    ..done.outcome
                },
                counts: done.counts.recorded(reason),
                cooldown: if reason == CloseReason::Silent {
                    barred(done.cooldown, moved, until)
                } else {
                    done.cooldown
                },
                ..done
            },
            LifecycleEvent::Promoted => DrivenModel {
                kept: done.kept.push(moved.fed(refine)),
                outcome: OutcomeModel {
                    feeds: done.outcome.feeds.push(moved.feed(k, n, sample_ts, refine, true)),
                    promoted: done.outcome.promoted.push(
                        DecoderEvent::TrackPromoted {
                            track_id: moved.id,
                            sample_ts,
                            offset: moved.offset(n) as i64,
                        },
                    ),
                    ..done.outcome
                },
                ..done
            },
            LifecycleEvent::Unchanged => if track.decoding {
                DrivenModel {
                    kept: done.kept.push(moved.fed(refine)),
                    outcome: OutcomeModel {
                        feeds: done.outcome.feeds.push(moved.feed(k, n, sample_ts, refine, false)),
                        ..done.outcome
                    },
                    ..done
                }
            } else {
                DrivenModel { kept: done.kept.push(moved), ..done }
            },
        }
    }
}

/// The track that owns a channel: the youngest one that reaches it.
pub open spec fn owner(tracks: Seq<TrackModel>, n: nat, channel: int) -> Option<u32>
    decreases tracks.len(),
{
    if tracks.len() == 0 {
        None
    } else if tracks.last().owns(n, channel) {
        Some(tracks.last().id)
    } else {
        owner(tracks.drop_last(), n, channel)
    }
}

/// A new track may be born on a channel: it rises, no track owns it, and it is not barred.
pub open spec fn eligible(
    tracks: Seq<TrackModel>,
    hop: HopObservation,
    cooldown: Seq<nat>,
    now: nat,
    channel: int,
) -> bool {
    &&& 0 <= channel < cooldown.len()
    &&& hop.rise@[channel]
    &&& owner(tracks, cooldown.len(), channel) is None
    &&& cooldown[channel] <= now
}

/// Births on the channels from `k` on. Of two neighbouring channels that are both eligible
/// only the stronger gives birth, the lower one if they are equal.
pub open spec fn spawn_from(
    tracks: Seq<TrackModel>,
    next_id: u32,
    hop: HopObservation,
    cooldown: Seq<nat>,
    now: nat,
    cfg: DetectorConfig,
    k: int,
) -> Seq<TrackModel>
    decreases cooldown.len() - k,
{
    if k >= cooldown.len() {
        tracks
    } else if !eligible(tracks, hop, cooldown, now, k) {
        spawn_from(tracks, next_id, hop, cooldown, now, cfg, k + 1)
    } else if eligible(tracks, hop, cooldown, now, k + 1) {
        let winner = if hop.power@[k + 1].code > hop.power@[k].code {
            k + 1
        } else {
            k
        };
        spawn_from(
            tracks.push(TrackModel::born(next_id, winner, cfg, hop.snr@[winner])),
            (next_id + 1) as u32,
            hop,
            cooldown,
            now,
            cfg,
            k + 2,
        )
    } else {
        spawn_from(
            tracks.push(TrackModel::born(next_id, k, cfg, hop.snr@[k])),
            (next_id + 1) as u32,
            hop,
            cooldown,
            now,
            cfg,
            k + 1,
        )
    }
}

/// Two tracks sit on the same signal.
pub open spec fn converged(a: TrackModel, b: TrackModel) -> bool {
    -CHANNEL < a.center - b.center < CHANNEL
}

/// The track is among those that ended.
pub open spec fn ended(closures: Seq<Closure>, id: u32) -> bool {
    exists|i: int| 0 <= i < closures.len() && (#[trigger] closures[i]).track_id == id
}

/// The closure of the weaker of two converged tracks, the older one if they are equal. It
/// names the other one.
pub open spec fn merge_closure(a: TrackModel, b: TrackModel) -> Closure {
    let (loser, survivor) = if a.snr.code <= b.snr.code {
        (a, b)
    } else {
        (b, a)
    };
    Closure {
        track_id: loser.id,
        kind: ClosureKind::Bookkeeping { survivor_track_id: Some(survivor.id) },
        forced: false,
        reported: loser.has_emitted,
    }
}

/// The tracks that end because they converged with another, from the pair `(i, j)` on.
/// Tracks that have ended take part in no further pair.
pub open spec fn merge_from(
    tracks: Seq<TrackModel>,
    i: int,
    j: int,
    closures: Seq<Closure>,
) -> Seq<Closure>
    decreases tracks.len() - i, tracks.len() - j,
{
    if i >= tracks.len() {
        closures
    } else if j >= tracks.len() {
        merge_from(tracks, i + 1, i + 2, closures)
    } else if ended(closures, tracks[i].id) || ended(closures, tracks[j].id) || !converged(
        tracks[i],
        tracks[j],
    ) {
        merge_from(tracks, i, j + 1, closures)
    } else {
        merge_from(tracks, i, j + 1, closures.push(merge_closure(tracks[i], tracks[j])))
    }
}

/// The tracks that end because they converged with another, each with the one that it was
/// paired with.
pub open spec fn pairings(tracks: Seq<TrackModel>) -> Seq<Closure> {
    merge_from(tracks, 0, 1, Seq::empty())
}

/// The track that a closure names, or the one that it ends where it names none.
pub open spec fn named_survivor(c: Closure) -> u32 {
    match c.kind {
        ClosureKind::Bookkeeping { survivor_track_id: Some(id) } => id,
        _ => c.track_id,
    }
}

/// The track in which a track lives on after the pairings from `from` on.
pub open spec fn final_survivor(pairs: Seq<Closure>, id: u32, from: int) -> u32
    decreases pairs.len() - from,
{
    if from >= pairs.len() {
        id
    } else if pairs[from].track_id == id {
        final_survivor(pairs, named_survivor(pairs[from]), from + 1)
    } else {
        final_survivor(pairs, id, from + 1)
    }
}

/// The closure of the pairing at `k`, with the track that it lives on in once all pairings
/// are through.
pub open spec fn resolved(pairs: Seq<Closure>, k: int) -> Closure {
    Closure {
        kind: ClosureKind::Bookkeeping {
            survivor_track_id: Some(final_survivor(pairs, named_survivor(pairs[k]), k + 1)),
        },
        ..pairs[k]
    }
}

/// The tracks that end because they converged with another. Each names the track in which
/// it lives on, which stays open.
pub open spec fn merged(tracks: Seq<TrackModel>) -> Seq<Closure> {
    Seq::new(pairings(tracks).len(), |k: int| resolved(pairings(tracks), k))
}

/// The tracks that have not ended.
pub open spec fn remaining(tracks: Seq<TrackModel>, closures: Seq<Closure>) -> Seq<TrackModel>
    decreases tracks.len(),
{
    if tracks.len() == 0 {
        tracks
    } else if ended(closures, tracks.last().id) {
        remaining(tracks.drop_last(), closures)
    } else {
        remaining(tracks.drop_last(), closures).push(tracks.last())
    }
}

/// The place of the weakest track, the oldest one among equals.
pub open spec fn weakest(tracks: Seq<TrackModel>) -> int
    decreases tracks.len(),
{
    if tracks.len() <= 1 {
        0
    } else {
        let w = weakest(tracks.drop_last());
        if tracks.last().snr.code < tracks[w].snr.code {
            tracks.len() - 1
        } else {
            w
        }
    }
}

/// The closure of a track that was given up to make room.
pub open spec fn eviction(track: TrackModel) -> Closure {
    Closure {
        track_id: track.id,
        kind: ClosureKind::Bookkeeping { survivor_track_id: None },
        forced: false,
        reported: track.has_emitted,
    }
}

/// The tracks that stay, and the closures of those that do not, when no more than `cap`
/// may stay.
pub open spec fn within_cap(
    tracks: Seq<TrackModel>,
    cap: nat,
    closures: Seq<Closure>,
) -> (Seq<TrackModel>, Seq<Closure>)
    decreases tracks.len(),
{
    if tracks.len() <= cap {
        (tracks, closures)
    } else {
        let w = weakest(tracks);
        if 0 <= w < tracks.len() {
            within_cap(tracks.remove(w), cap, closures.push(eviction(tracks[w])))
        } else {
            (tracks, closures)
        }
    }
}

/// Some event belongs to the track.
pub open spec fn heard(events: Seq<DecoderEvent>, id: u32) -> bool {
    exists|i: int| 0 <= i < events.len() && spec_event_track_id(#[trigger] events[i]) == id
}

/// Some event is a character of the track.
pub open spec fn spoke(events: Seq<DecoderEvent>, id: u32) -> bool {
    exists|i: int|
        0 <= i < events.len() && spec_event_track_id(#[trigger] events[i]) == id
            && events[i] is CharDecoded
}

/// The tracks after their decoders reported `events`: who reported is marked, who decoded
/// a character starts a new garbage-collection window.
pub open spec fn noted(tracks: Seq<TrackModel>, events: Seq<DecoderEvent>) -> Seq<TrackModel> {
    Seq::new(
        tracks.len(),
        |i: int|
            TrackModel {
                has_emitted: tracks[i].has_emitted || heard(events, tracks[i].id),
                life: if spoke(events, tracks[i].id) {
                    tracks[i].life.spoken()
                } else {
                    tracks[i].life
                },
                ..tracks[i]
            },
    )
}

/// The events that tell of those closures that are reported.
pub open spec fn closing_events(closures: Seq<Closure>) -> Seq<DecoderEvent>
    decreases closures.len(),
{
    if closures.len() == 0 {
        Seq::empty()
    } else {
        let c = closures.last();
        let rest = closing_events(closures.drop_last());
        if c.reported {
            rest.push(DecoderEvent::TrackClosed { track_id: c.track_id, closure: c.kind })
        } else {
            rest
        }
    }
}

/// The end of the stream, told of every track that has reported something.
pub open spec fn final_events(tracks: Seq<TrackModel>, flushed: Seq<DecoderEvent>) -> Seq<
    DecoderEvent,
>
    decreases tracks.len(),
{
    if tracks.len() == 0 {
        Seq::empty()
    } else {
        let t = tracks.last();
        let rest = final_events(tracks.drop_last(), flushed);
        if t.has_emitted || heard(flushed, t.id) {
            rest.push(
                DecoderEvent::TrackClosed { track_id: t.id, closure: ClosureKind::SignalEnded },
            )
        } else {
            rest
        }
    }
}

/// How many tracks have a decoder.
pub open spec fn decoding_count(tracks: Seq<TrackModel>) -> nat
    decreases tracks.len(),
{
    if tracks.len() == 0 {
        0
    } else {
        decoding_count(tracks.drop_last()) + (if tracks.last().decoding {
            1nat
        } else {
            0nat
        })
    }
}

/// The mathematical state of a [`TrackManager`].
#[verifier::ext_equal]
pub ghost struct ManagerModel {
    pub cfg: DetectorConfig,
    pub tracks: Seq<TrackModel>,
    /// For each channel the hop up to which no track may be born there.
    pub cooldown: Seq<nat>,
    pub hop_counter: nat,
    pub next_id: u32,
    pub counts: CloseCounts,
}

impl ManagerModel {
    /// How many channels the band has.
    pub open spec fn n(self) -> nat {
        self.cooldown.len()
    }

    /// A manager that has seen nothing yet.
    pub open spec fn fresh(n: nat, cfg: DetectorConfig) -> Self {
        ManagerModel {
            cfg,
            tracks: Seq::empty(),
            cooldown: Seq::new(n, |k: int| 0nat),
            hop_counter: 0,
            next_id: 1,
            counts: CloseCounts { unconfirmed: 0, hang_expired: 0, silent: 0, merged: 0, evicted: 0 },
        }
    }

    /// Tracks are listed by identity; identities are given out once, in order; no more
    /// tracks are open or counted as closed than were born.
    pub open spec fn wf(self) -> bool {
        &&& self.n() <= MAX_CHANNELS
        &&& self.hop_counter <= u64::MAX
        &&& tracks_wf(self.tracks, self.n(), self.hop_counter, self.next_id)
        &&& self.counts.total() + self.tracks.len() < self.next_id
        &&& forall|k: int| 0 <= k < self.n() ==> (#[trigger] self.cooldown[k]) <= u64::MAX
    }

    /// The machine's counters have room for one more hop.
    pub open spec fn has_room(self) -> bool {
        &&& self.hop_counter + 1 + self.cfg.silent_respawn_cooldown_hops <= u64::MAX
        &&& self.next_id + self.n() <= u32::MAX
    }

    /// Every open track takes the hop.
    pub open spec fn driven(self, hop: HopObservation, sample_ts: u64, refine: bool) -> DrivenModel {
        drive_all(
            self.tracks,
            hop,
            sample_ts,
            refine,
            self.hop_counter + 1 + self.cfg.silent_respawn_cooldown_hops as nat,
            DrivenModel {
                kept: Seq::empty(),
                outcome: OutcomeModel {
                    feeds: Seq::empty(),
                    promoted: Seq::empty(),
                    closures: Seq::empty(),
                },
                counts: self.counts,
                cooldown: freed(self.cooldown, hop.rise@),
            },
        )
    }

    /// The tracks once the hop's births are in.
    pub open spec fn populated(self, hop: HopObservation, sample_ts: u64, refine: bool) -> Seq<
        TrackModel,
    > {
        let driven = self.driven(hop, sample_ts, refine);
        if self.hop_counter >= self.cfg.warmup_hops {
            spawn_from(
                driven.kept,
                self.next_id,
                hop,
                driven.cooldown,
                self.hop_counter + 1,
                self.cfg,
                0,
            )
        } else {
            driven.kept
        }
    }

    /// The manager after one hop.
    pub open spec fn stepped(self, hop: HopObservation, sample_ts: u64, refine: bool) -> Self {
        let driven = self.driven(hop, sample_ts, refine);
        let populated = self.populated(hop, sample_ts, refine);
        let unmerged = remaining(populated, merged(populated));
        let capped = within_cap(unmerged, self.cfg.track_cap as nat, Seq::empty());
        ManagerModel {
            tracks: capped.0,
            cooldown: driven.cooldown,
            hop_counter: self.hop_counter + 1,
            next_id: (self.next_id + populated.len() - driven.kept.len()) as u32,
            counts: CloseCounts {
                merged: (driven.counts.merged + merged(populated).len()) as u64,
                evicted: (driven.counts.evicted + capped.1.len()) as u64,
                ..driven.counts
            },
            ..self
        }
    }

    /// What the hop asks of the decoders.
    pub open spec fn outcome(self, hop: HopObservation, sample_ts: u64, refine: bool) -> OutcomeModel {
        let driven = self.driven(hop, sample_ts, refine);
        let populated = self.populated(hop, sample_ts, refine);
        let unmerged = remaining(populated, merged(populated));
        let capped = within_cap(unmerged, self.cfg.track_cap as nat, Seq::empty());
        OutcomeModel {
            closures: driven.outcome.closures + merged(populated) + capped.1,
            ..driven.outcome
        }
    }
}

/// Tracks with ascending identities below `next_id`, each of them well-formed.
pub open spec fn tracks_wf(tracks: Seq<TrackModel>, n: nat, hops: nat, next_id: u32) -> bool {
    &&& forall|i: int| 0 <= i < tracks.len() ==> (#[trigger] tracks[i]).wf(n, hops)
    &&& forall|i: int| 0 <= i < tracks.len() ==> 0 < (#[trigger] tracks[i]).id < next_id
    &&& forall|i: int, j: int|
        0 <= i < j < tracks.len() ==> (#[trigger] tracks[i]).id < (#[trigger] tracks[j]).id
}

/// Some track has this identity.
pub open spec fn known(tracks: Seq<TrackModel>, id: u32) -> bool {
    exists|i: int| 0 <= i < tracks.len() && (#[trigger] tracks[i]).id == id
}

/// Each closure ends another one of the tracks.
pub open spec fn closures_of(closures: Seq<Closure>, tracks: Seq<TrackModel>) -> bool {
    &&& forall|i: int| 0 <= i < closures.len() ==> known(tracks, (#[trigger] closures[i]).track_id)
    &&& forall|i: int, j: int|
        0 <= i < j < closures.len() ==> (#[trigger] closures[i]).track_id != (
        #[trigger] closures[j]).track_id
}

pub open spec fn ids_ascend(tracks: Seq<TrackModel>) -> bool {
    forall|i: int, j: int|
        0 <= i < j < tracks.len() ==> (#[trigger] tracks[i]).id < (#[trigger] tracks[j]).id
}

proof fn lemma_ended_push(closures: Seq<Closure>, c: Closure, id: u32)
    ensures
        ended(closures.push(c), id) <==> ended(closures, id) || c.track_id == id,
{
    let more = closures.push(c);
    if ended(closures, id) {
        let i = choose|i: int| 0 <= i < closures.len() && (#[trigger] closures[i]).track_id == id;
        assert(more[i].track_id == id);
    }
    if c.track_id == id {
        assert(more[closures.len() as int].track_id == id);
    }
    if ended(more, id) {
        let i = choose|i: int| 0 <= i < more.len() && (#[trigger] more[i]).track_id == id;
        if i < closures.len() {
            assert(closures[i].track_id == id);
        }
    }
}

proof fn lemma_closures_push(closures: Seq<Closure>, c: Closure, tracks: Seq<TrackModel>)
    requires
        closures_of(closures, tracks),
        known(tracks, c.track_id),
        !ended(closures, c.track_id),
    ensures
        closures_of(closures.push(c), tracks),
{
    let more = closures.push(c);
    assert forall|i: int| 0 <= i < more.len() implies known(tracks, (#[trigger] more[i]).track_id) by {
        if i < closures.len() {
            assert(more[i] == closures[i]);
        }
    }
    assert forall|i: int, j: int| 0 <= i < j < more.len() implies (#[trigger] more[i]).track_id != (
    #[trigger] more[j]).track_id by {
        assert(more[i] == closures[i]);
        if j < closures.len() {
            assert(more[j] == closures[j]);
        }
    }
}

proof fn lemma_merge_closes_tracks_once(
    tracks: Seq<TrackModel>,
    i: int,
    j: int,
    closures: Seq<Closure>,
)
    requires
        0 <= i,
        i < j,
        closures_of(closures, tracks),
    ensures
        closures_of(merge_from(tracks, i, j, closures), tracks),
        closures.is_prefix_of(merge_from(tracks, i, j, closures)),
    decreases tracks.len() - i, tracks.len() - j,
{
    if i >= tracks.len() {
    } else if j >= tracks.len() {
        lemma_merge_closes_tracks_once(tracks, i + 1, i + 2, closures);
    } else if ended(closures, tracks[i].id) || ended(closures, tracks[j].id) || !converged(
        tracks[i],
        tracks[j],
    ) {
        lemma_merge_closes_tracks_once(tracks, i, j + 1, closures);
    } else {
        let c = merge_closure(tracks[i], tracks[j]);
        lemma_closures_push(closures, c, tracks);
        lemma_merge_closes_tracks_once(tracks, i, j + 1, closures.push(c));
        let all = merge_from(tracks, i, j, closures);
        assert(closures =~= closures.push(c).subrange(0, closures.len() as int));
        assert(closures =~= all.subrange(0, closures.len() as int));
    }
}

/// How many of the tracks have ended.
spec fn ended_count(tracks: Seq<TrackModel>, closures: Seq<Closure>) -> nat
    decreases tracks.len(),
{
    if tracks.len() == 0 {
        0
    } else {
        ended_count(tracks.drop_last(), closures) + (if ended(closures, tracks.last().id) {
            1nat
        } else {
            0nat
        })
    }
}

proof fn lemma_one_more_ended(tracks: Seq<TrackModel>, closures: Seq<Closure>, c: Closure)
    requires
        ids_ascend(tracks),
        !ended(closures, c.track_id),
    ensures
        ended_count(tracks, closures.push(c)) == ended_count(tracks, closures) + (if known(
            tracks,
            c.track_id,
        ) {
            1nat
        } else {
            0nat
        }),
    decreases tracks.len(),
{
    if tracks.len() > 0 {
        let rest = tracks.drop_last();
        let last = tracks.last();
        assert(ids_ascend(rest));
        lemma_one_more_ended(rest, closures, c);
        lemma_ended_push(closures, c, last.id);
        if last.id == c.track_id {
            assert(known(tracks, c.track_id)) by {
                assert(tracks[tracks.len() - 1].id == c.track_id);
            }
            if known(rest, c.track_id) {
                let i = choose|i: int| 0 <= i < rest.len() && (#[trigger] rest[i]).id == c.track_id;
                assert(tracks[i].id < tracks[tracks.len() - 1].id);
            }
        } else if known(tracks, c.track_id) {
            let i = choose|i: int| 0 <= i < tracks.len() && (#[trigger] tracks[i]).id == c.track_id;
            assert(rest[i].id == c.track_id);
        } else if known(rest, c.track_id) {
            let i = choose|i: int| 0 <= i < rest.len() && (#[trigger] rest[i]).id == c.track_id;
            assert(tracks[i].id == c.track_id);
        }
    }
}

proof fn lemma_nothing_ended(tracks: Seq<TrackModel>)
    ensures
        ended_count(tracks, Seq::empty()) == 0,
    decreases tracks.len(),
{
    if tracks.len() > 0 {
        lemma_nothing_ended(tracks.drop_last());
    }
}

proof fn lemma_ended_count(tracks: Seq<TrackModel>, closures: Seq<Closure>)
    requires
        ids_ascend(tracks),
        closures_of(closures, tracks),
    ensures
        ended_count(tracks, closures) == closures.len(),
    decreases closures.len(),
{
    if closures.len() == 0 {
        lemma_nothing_ended(tracks);
        assert(closures =~= Seq::<Closure>::empty());
    } else {
        let rest = closures.drop_last();
        let last = closures.last();
        assert(closures_of(rest, tracks)) by {
            assert forall|i: int| 0 <= i < rest.len() implies known(
                tracks,
                (#[trigger] rest[i]).track_id,
            ) by {
                assert(rest[i] == closures[i]);
            }
            assert forall|i: int, j: int| 0 <= i < j < rest.len() implies (#[trigger] rest[i]).track_id
                != (#[trigger] rest[j]).track_id by {
                assert(rest[i] == closures[i] && rest[j] == closures[j]);
            }
        }
        lemma_ended_count(tracks, rest);
        if ended(rest, last.track_id) {
            let i = choose|i: int| 0 <= i < rest.len() && (#[trigger] rest[i]).track_id
                == last.track_id;
            assert(closures[i].track_id != closures[closures.len() - 1].track_id);
        }
        assert(known(tracks, closures[closures.len() - 1].track_id));
        lemma_one_more_ended(tracks, rest, last);
        assert(closures =~= rest.push(last));
    }
}

proof fn lemma_remaining(
    tracks: Seq<TrackModel>,
    closures: Seq<Closure>,
    n: nat,
    hops: nat,
    next_id: u32,
)
    requires
        tracks_wf(tracks, n, hops, next_id),
    ensures
        tracks_wf(remaining(tracks, closures), n, hops, next_id),
        remaining(tracks, closures).len() + ended_count(tracks, closures) == tracks.len(),
        forall|j: int|
            0 <= j < remaining(tracks, closures).len() ==> !ended(
                closures,
                (#[trigger] remaining(tracks, closures)[j]).id,
            ) && tracks.contains(remaining(tracks, closures)[j]),
        forall|i: int|
            0 <= i < tracks.len() && !ended(closures, (#[trigger] tracks[i]).id) ==> remaining(
                tracks,
                closures,
            ).contains(tracks[i]),
    decreases tracks.len(),
{
    if tracks.len() > 0 {
        let rest = tracks.drop_last();
        let last = tracks.last();
        assert(tracks_wf(rest, n, hops, next_id)) by {
            assert forall|i: int| 0 <= i < rest.len() implies (#[trigger] rest[i]).wf(n, hops) && 0
                < rest[i].id < next_id by {
                assert(rest[i] == tracks[i]);
            }
            assert forall|i: int, j: int| 0 <= i < j < rest.len() implies (#[trigger] rest[i]).id < (
            #[trigger] rest[j]).id by {
                assert(rest[i] == tracks[i] && rest[j] == tracks[j]);
            }
        }
        lemma_remaining(rest, closures, n, hops, next_id);
        let inner = remaining(rest, closures);
        let all = remaining(tracks, closures);
        assert(tracks[tracks.len() - 1].wf(n, hops));
        assert forall|j: int| 0 <= j < inner.len() implies (#[trigger] inner[j]).id < last.id by {
            assert(rest.contains(inner[j]));
            let i = choose|i: int| 0 <= i < rest.len() && rest[i] == inner[j];
            assert(tracks[i].id < tracks[tracks.len() - 1].id);
        }
        assert forall|j: int| 0 <= j < all.len() implies !ended(closures, (#[trigger] all[j]).id)
            && tracks.contains(all[j]) by {
            if j < inner.len() {
                assert(all[j] == inner[j]);
                assert(rest.contains(inner[j]));
                let i = choose|i: int| 0 <= i < rest.len() && rest[i] == inner[j];
                assert(tracks[i] == all[j]);
            } else {
                assert(tracks[tracks.len() - 1] == all[j]);
            }
        }
        assert forall|i: int|
            0 <= i < tracks.len() && !ended(closures, (#[trigger] tracks[i]).id) implies all.contains(
            tracks[i],
        ) by {
            if i < rest.len() {
                assert(rest[i] == tracks[i]);
                assert(inner.contains(rest[i]));
                let j = choose|j: int| 0 <= j < inner.len() && inner[j] == rest[i];
                assert(all[j] == tracks[i]);
            } else {
                assert(all[all.len() - 1] == tracks[i]);
            }
        }
        assert(tracks_wf(all, n, hops, next_id)) by {
            assert forall|i: int| 0 <= i < all.len() implies (#[trigger] all[i]).wf(n, hops) && 0
                < all[i].id < next_id by {
                if i < inner.len() {
                    assert(all[i] == inner[i]);
                }
            }
            assert forall|i: int, j: int| 0 <= i < j < all.len() implies (#[trigger] all[i]).id < (
            #[trigger] all[j]).id by {
                assert(all[i] == inner[i]);
                if j < inner.len() {
                    assert(all[j] == inner[j]);
                }
            }
        }
    }
}

/// Merging ends some of the tracks, each once, and leaves the others in order.
pub proof fn lemma_merging(tracks: Seq<TrackModel>, n: nat, hops: nat, next_id: u32)
    requires
        tracks_wf(tracks, n, hops, next_id),
    ensures
        ({
            let closures = merged(tracks);
            let rest = remaining(tracks, closures);
            &&& closures_of(closures, tracks)
            &&& tracks_wf(rest, n, hops, next_id)
            &&& rest.len() + closures.len() == tracks.len()
            &&& forall|j: int|
                0 <= j < rest.len() ==> !ended(closures, (#[trigger] rest[j]).id) && tracks.contains(
                    rest[j],
                )
            &&& forall|i: int|
                0 <= i < tracks.len() && !ended(closures, (#[trigger] tracks[i]).id)
                    ==> rest.contains(tracks[i])
        }),
{
    lemma_merge_closes_tracks_once(tracks, 0, 1, Seq::empty());
    let (pairs, closures) = (pairings(tracks), merged(tracks));
    assert forall|i: int| 0 <= i < closures.len() implies known(
        tracks,
        (#[trigger] closures[i]).track_id,
    ) by {
        assert(closures[i].track_id == pairs[i].track_id);
    }
    assert forall|i: int, j: int| 0 <= i < j < closures.len() implies (#[trigger] closures[i]).track_id
        != (#[trigger] closures[j]).track_id by {
        assert(pairs[i].track_id != pairs[j].track_id);
    }
    lemma_ended_count(tracks, closures);
    lemma_remaining(tracks, closures, n, hops, next_id);
}

/// The tracks that are paired off are those that are merged away.
pub proof fn lemma_merged_ends_the_paired(tracks: Seq<TrackModel>, id: u32)
    ensures
        ended(merged(tracks), id) == ended(pairings(tracks), id),
{
    let (pairs, closures) = (pairings(tracks), merged(tracks));
    if ended(pairs, id) {
        let i = choose|i: int| 0 <= i < pairs.len() && (#[trigger] pairs[i]).track_id == id;
        assert(closures[i].track_id == id);
    }
    if ended(closures, id) {
        let i = choose|i: int| 0 <= i < closures.len() && (#[trigger] closures[i]).track_id == id;
        assert(pairs[i].track_id == id);
    }
}

/// The state of a well-formed manager is well-formed.
pub proof fn lemma_manager_model(tm: &TrackManager)
    requires
        tm.wf(),
    ensures
        tm@.wf(),
{
}

/// The models of a list of tracks.
pub open spec fn models(tracks: Seq<Track>) -> Seq<TrackModel> {
    Seq::new(tracks.len(), |i: int| tracks[i]@)
}

/// Orchestrates the tracks over all channels, hop by hop.
pub struct TrackManager {
    /// The open tracks, by identity.
    tracks: Vec<Track>,
    /// For each channel the track that owns it.
    owner_of: Vec<Option<u32>>,
    next_id: u32,
    cfg: DetectorConfig,
    hop_counter: u64,
    close_counts: CloseCounts,
    /// For each channel the hop up to which no track may be born there.
    channel_cooldown_until: Vec<u64>,
}

impl View for TrackManager {
    type V = ManagerModel;

    closed spec fn view(&self) -> ManagerModel {
        ManagerModel {
            cfg: self.cfg,
            tracks: models(self.tracks@),
            cooldown: Seq::new(
                self.channel_cooldown_until@.len(),
                |k: int| self.channel_cooldown_until@[k] as nat,
            ),
            hop_counter: self.hop_counter as nat,
            next_id: self.next_id,
            counts: self.close_counts,
        }
    }
}

impl TrackManager {
    pub closed spec fn wf(&self) -> bool {
        &&& self@.wf()
        &&& self.owner_of@.len() == self.channel_cooldown_until@.len()
    }

    /// `owner_of` says for each channel which track owns it.
    spec fn owners_known(&self) -> bool {
        forall|k: int|
            0 <= k < self@.n() ==> (#[trigger] self.owner_of@[k]) == owner(
                self@.tracks,
                self@.n(),
                k,
            )
    }

    /// A manager over `n_channels` channels.
    pub fn new(n_channels: usize, detector_cfg: DetectorConfig) -> (tm: Self)
        requires
            n_channels <= MAX_CHANNELS,
        ensures
            tm@ == ManagerModel::fresh(n_channels as nat, detector_cfg),
            tm.wf(),
            tm@.wf(),
    {
        let mut owner_of: Vec<Option<u32>> = Vec::new();
        let mut channel_cooldown_until: Vec<u64> = Vec::new();
        let mut k: usize = 0;
        while k < n_channels
            invariant
                k <= n_channels,
                owner_of.len() == k,
                channel_cooldown_until.len() == k,
                forall|i: int| 0 <= i < k ==> channel_cooldown_until@[i] == 0,
            decreases n_channels - k,
        {
            owner_of.push(None);
            channel_cooldown_until.push(0);
            k = k + 1;
        }
        let tm = TrackManager {
            tracks: Vec::new(),
            owner_of,
            next_id: 1,
            cfg: detector_cfg,
            hop_counter: 0,
            close_counts: CloseCounts {
                unconfirmed: 0,
                hang_expired: 0,
                silent: 0,
                merged: 0,
                evicted: 0,
            },
            channel_cooldown_until,
        };
        proof {
            assert(tm@ =~= ManagerModel::fresh(n_channels as nat, detector_cfg));
        }
        tm
    }

    pub fn n_channels(&self) -> (n: usize)
        requires
            self.wf(),
        ensures
            n == self@.n(),
    {
        self.channel_cooldown_until.len()
    }

    /// How many tracks closed so far, by reason.
    pub fn close_counts(&self) -> (counts: CloseCounts)
        ensures
            counts == self@.counts,
    {
        self.close_counts
    }

    /// How many tracks are open.
    pub fn active_track_count(&self) -> (count: usize)
        ensures
            count == self@.tracks.len(),
    {
        self.tracks.len()
    }

    /// Set the owner of every channel from the open tracks.
    fn recompute_ownership(&mut self)
        requires
            old(self).wf(),
        ensures
            final(self).wf(),
            final(self)@ == old(self)@,
            final(self).owners_known(),
    {
        let n: usize = self.channel_cooldown_until.len();
        let ghost tracks = self@.tracks;
        let mut k: usize = 0;
        while k < n
            invariant
                k <= n,
                n == self.channel_cooldown_until.len(),
                self.owner_of.len() == n,
                self@ == old(self)@,
                self.wf(),
                forall|i: int| 0 <= i < k ==> (#[trigger] self.owner_of@[i]) is None,
            decreases n - k,
        {
            self.owner_of.set(k, None);
            k = k + 1;
        }
        let mut i: usize = 0;
        proof {
            assert(tracks.take(0) =~= Seq::<TrackModel>::empty());
        }
        while i < self.tracks.len()
            invariant
                i <= self.tracks.len(),
                n == self.channel_cooldown_until.len(),
                self.owner_of.len() == n,
                self@ == old(self)@,
                self.wf(),
                tracks == self@.tracks,
                forall|k: int|
                    0 <= k < n ==> (#[trigger] self.owner_of@[k]) == owner(
                        tracks.take(i as int),
                        n as nat,
                        k,
                    ),
            decreases self.tracks.len() - i,
        {
            let track = self.tracks[i];
            proof {
                assert(tracks[i as int] == track@);
                assert(tracks[i as int].wf(n as nat, self@.hop_counter));
                assert(tracks.take(i + 1).drop_last() =~= tracks.take(i as int));
            }
            let (a, b, c) = track.owned(n);
            let id: u32 = track.id();
            self.owner_of.set(a, Some(id));
            self.owner_of.set(b, Some(id));
            self.owner_of.set(c, Some(id));
            proof {
                assert forall|k: int| 0 <= k < n implies (#[trigger] self.owner_of@[k]) == owner(
                    tracks.take(i + 1),
                    n as nat,
                    k,
                ) by {
                    assert(track@.owns(n as nat, k) <==> k == a || k == b || k == c);
                }
            }
            i = i + 1;
        }
        proof {
            assert(tracks.take(i as int) =~= tracks);
        }
    }

    /// A channel without rise is free again.
    fn free_quiet_channels(&mut self, hop: &HopObservation)
        requires
            old(self).wf(),
            hop.covers(old(self)@.n()),
        ensures
            final(self).wf(),
            final(self)@ == (ManagerModel {
                cooldown: freed(old(self)@.cooldown, hop.rise@),
                ..old(self)@
            }),
    {
        let n: usize = self.channel_cooldown_until.len();
        let mut k: usize = 0;
        while k < n
            invariant
                k <= n,
                n == self.channel_cooldown_until.len(),
                n == old(self).channel_cooldown_until.len(),
                hop.covers(n as nat),
                *self == (TrackManager {
                    channel_cooldown_until: self.channel_cooldown_until,
                    ..*old(self)
                }),
                forall|i: int|
                    0 <= i < k ==> (#[trigger] self.channel_cooldown_until@[i]) == (if hop.rise@[i] {
                        old(self).channel_cooldown_until@[i]
                    } else {
                        0
                    }),
                forall|i: int|
                    k <= i < n ==> (#[trigger] self.channel_cooldown_until@[i])
                        == old(self).channel_cooldown_until@[i],
            decreases n - k,
        {
            if !hop.rise[k] && self.channel_cooldown_until[k] > 0 {
                self.channel_cooldown_until.set(k, 0);
            }
            k = k + 1;
        }
        proof {
            assert(self@.cooldown =~= freed(old(self)@.cooldown, hop.rise@));
            assert(self@ =~= (ManagerModel { cooldown: self@.cooldown, ..old(self)@ }));
        }
    }

    /// Bar the channels of `track` until hop `until`.
    fn bar_channels(&mut self, track: &Track, until: u64)
        requires
            in_band(track@.center, old(self).channel_cooldown_until@.len()),
            0 < old(self).channel_cooldown_until@.len() <= MAX_CHANNELS,
        ensures
            *final(self) == (TrackManager {
                channel_cooldown_until: final(self).channel_cooldown_until,
                ..*old(self)
            }),
            final(self).channel_cooldown_until@.len() == old(self).channel_cooldown_until@.len(),
            final(self)@.cooldown == barred(old(self)@.cooldown, track@, until as nat),
    {
        let (a, b, c) = track.owned(self.channel_cooldown_until.len());
        self.channel_cooldown_until.set(a, until);
        self.channel_cooldown_until.set(b, until);
        self.channel_cooldown_until.set(c, until);
        proof {
            let n = self.channel_cooldown_until@.len();
            assert forall|k: int| 0 <= k < n implies (#[trigger] self@.cooldown[k]) == barred(
                old(self)@.cooldown,
                track@,
                until as nat,
            )[k] by {
                assert(track@.owns(n, k) <==> k == a || k == b || k == c);
            }
            assert(self@.cooldown =~= barred(old(self)@.cooldown, track@, until as nat));
        }
    }

    /// Let every open track take the hop.
    fn drive_tracks(&mut self, hop: &HopObservation, sample_ts: u64, refine: bool) -> (out:
        StepOutcome)
        requires
            old(self)@.wf(),
            hop.covers(old(self)@.n()),
            old(self)@.hop_counter + old(self)@.cfg.silent_respawn_cooldown_hops <= u64::MAX,
            forall|i: int|
                0 <= i < old(self)@.tracks.len() ==> (#[trigger] old(self)@.tracks[i]).refiner_hops
                    < old(self)@.hop_counter,
        ensures
            ({
                let done = drive_all(
                    old(self)@.tracks,
                    *hop,
                    sample_ts,
                    refine,
                    old(self)@.hop_counter + old(self)@.cfg.silent_respawn_cooldown_hops as nat,
                    DrivenModel {
                        kept: Seq::empty(),
                        outcome: OutcomeModel {
                            feeds: Seq::empty(),
                            promoted: Seq::empty(),
                            closures: Seq::empty(),
                        },
                        counts: old(self)@.counts,
                        cooldown: old(self)@.cooldown,
                    },
                );
                &&& final(self)@ == (ManagerModel {
                    tracks: done.kept,
                    counts: done.counts,
                    cooldown: done.cooldown,
                    ..old(self)@
                })
                &&& out@ == done.outcome
            }),
            final(self).owner_of@ == old(self).owner_of@,
            final(self)@.n() == old(self)@.n(),
            final(self)@.wf(),
    {
        let n: usize = self.channel_cooldown_until.len();
        let until: u64 = self.hop_counter + self.cfg.silent_respawn_cooldown_hops;
        let ghost tracks = self@.tracks;
        let ghost hops = self@.hop_counter;
        let ghost start = DrivenModel {
            kept: Seq::empty(),
            outcome: OutcomeModel {
                feeds: Seq::empty(),
                promoted: Seq::empty(),
                closures: Seq::empty(),
            },
            counts: self@.counts,
            cooldown: self@.cooldown,
        };
        let mut kept: Vec<Track> = Vec::new();
        let mut out = StepOutcome { feeds: Vec::new(), promoted: Vec::new(), closures: Vec::new() };
        let mut i: usize = 0;
        let ghost mut done = start;
        proof {
            assert(tracks.take(0) =~= Seq::<TrackModel>::empty());
            assert(models(kept@) =~= start.kept);
        }
        while i < self.tracks.len()
            invariant
                i <= self.tracks.len(),
                n == self.channel_cooldown_until.len(),
                n == start.cooldown.len(),
                n <= MAX_CHANNELS,
                until as nat == hops + self.cfg.silent_respawn_cooldown_hops,
                hop.covers(n as nat),
                *self == (TrackManager {
                    channel_cooldown_until: self.channel_cooldown_until,
                    close_counts: self.close_counts,
                    ..*old(self)
                }),
                tracks == models(self.tracks@),
                hops == self.hop_counter as nat,
                start.counts == old(self).close_counts,
                old(self)@.wf(),
                tracks_wf(tracks, n as nat, hops, self.next_id),
                done == drive_all(tracks.take(i as int), *hop, sample_ts, refine, until as nat, start),
                models(kept@) == done.kept,
                out@ == done.outcome,
                self.close_counts == done.counts,
                self@.cooldown == done.cooldown,
                done.cooldown.len() == n,
                kept.len() + out.closures.len() == i,
                self.close_counts.total() == start.counts.total() + out.closures.len(),
                tracks_wf(done.kept, n as nat, hops, self.next_id),
                forall|m: int|
                    0 <= m < tracks.len() ==> (#[trigger] tracks[m]).refiner_hops < hops,
                forall|j: int, m: int|
                    0 <= j < done.kept.len() && i <= m < tracks.len() ==> (#[trigger] done.kept[j]).id
                        < (#[trigger] tracks[m]).id,
            decreases self.tracks.len() - i,
        {
            let mut track = self.tracks[i];
            let ghost model = track@;
            let ghost before = done;
            proof {
                assert(tracks[i as int] == model);
                assert(tracks.take(i + 1).drop_last() =~= tracks.take(i as int));
                assert(tracks.take(i + 1).last() == model);
                done = drive_all(tracks.take(i + 1), *hop, sample_ts, refine, until as nat, start);
                assert(model.wf(n as nat, hops));
            }
            let decoding: bool = track.decoding();
            let (k, event) = track.drive(hop, n);
            match event {
                LifecycleEvent::Closed(reason) => {
                    self.close_counts.record(reason);
                    if reason == CloseReason::Silent {
                        self.bar_channels(&track, until);
                    }
                    let kind = if reason == CloseReason::HangExpired {
                        ClosureKind::SignalEnded
                    } else {
                        ClosureKind::Bookkeeping { survivor_track_id: None }
                    };
                    out.closures.push(
                        Closure {
                            track_id: track.id(),
                            kind,
                            forced: reason == CloseReason::HangExpired,
                            reported: track.has_emitted(),
                        },
                    );
                },
                LifecycleEvent::Promoted => {
                    let feed = track.decoder_input(k, sample_ts, refine, true, n);
                    out.promoted.push(
                        DecoderEvent::TrackPromoted {
                            track_id: feed.track_id,
                            sample_ts,
                            offset: feed.offset,
                        },
                    );
                    out.feeds.push(feed);
                    kept.push(track);
                },
                LifecycleEvent::Unchanged => {
                    if decoding {
                        let feed = track.decoder_input(k, sample_ts, refine, false, n);
                        out.feeds.push(feed);
                    }
                    kept.push(track);
                },
            }
            proof {
                if !(event is Closed) {
                    assert(models(kept@) =~= before.kept.push(track@));
                }
                assert(out@ =~= done.outcome);
            }
            i = i + 1;
        }
        proof {
            assert(tracks.take(i as int) =~= tracks);
        }
        self.tracks = kept;
        proof {
            assert(self@ =~= (ManagerModel {
                tracks: done.kept,
                counts: done.counts,
                cooldown: done.cooldown,
                ..old(self)@
            }));
        }
        out
    }

    /// `k` may not give birth yet: a silent track closed there a short while ago.
    fn channel_cooling_down(&self, k: usize) -> (yes: bool)
        requires
            k < self.channel_cooldown_until@.len(),
        ensures
            yes == (self@.cooldown[k as int] > self@.hop_counter),
    {
        self.channel_cooldown_until[k] > self.hop_counter
    }

    fn is_eligible(&self, hop: &HopObservation, k: usize) -> (yes: bool)
        requires
            self.wf(),
            self.owners_known(),
            hop.covers(self@.n()),
            k < self@.n(),
        ensures
            yes == eligible(self@.tracks, *hop, self@.cooldown, self@.hop_counter, k as int),
    {
        assert(self.owner_of@[k as int] == owner(self@.tracks, self@.n(), k as int));
        hop.rise[k] && self.owner_of[k].is_none() && !self.channel_cooling_down(k)
    }

    /// A new candidate on `birth_channel`.
    fn spawn(&mut self, birth_channel: usize, snr: Level)
        requires
            old(self).wf(),
            old(self).owners_known(),
            birth_channel < old(self)@.n(),
            old(self)@.next_id < u32::MAX,
        ensures
            final(self).wf(),
            final(self).owners_known(),
            final(self)@ == (ManagerModel {
                tracks: old(self)@.tracks.push(
                    TrackModel::born(
                        old(self)@.next_id,
                        birth_channel as int,
                        old(self)@.cfg,
                        snr,
                    ),
                ),
                next_id: (old(self)@.next_id + 1) as u32,
                ..old(self)@
            }),
    {
        let n: usize = self.channel_cooldown_until.len();
        let id: u32 = self.next_id;
        self.next_id = id + 1;
        let track = Track::new(id, birth_channel, &self.cfg, snr);
        proof {
            assert(track@.wf(n as nat, self.hop_counter as nat));
        }
        let (a, b, c) = track.owned(n);
        self.owner_of.set(a, Some(id));
        self.owner_of.set(b, Some(id));
        self.owner_of.set(c, Some(id));
        self.tracks.push(track);
        proof {
            let before = old(self)@.tracks;
            assert(self@.tracks =~= before.push(track@));
            assert(self@.tracks.drop_last() =~= before);
            assert forall|k: int| 0 <= k < n implies (#[trigger] self.owner_of@[k]) == owner(
                self@.tracks,
                n as nat,
                k,
            ) by {
                assert(track@.owns(n as nat, k) <==> k == a || k == b || k == c);
                assert(old(self).owner_of@[k] == owner(before, n as nat, k));
            }
            assert(self@ =~= (ManagerModel {
                tracks: before.push(track@),
                next_id: (id + 1) as u32,
                ..old(self)@
            }));
        }
    }

    /// Births on the channels that rise without an owner.
    fn spawn_candidates(&mut self, hop: &HopObservation)
        requires
            old(self).wf(),
            old(self).owners_known(),
            hop.covers(old(self)@.n()),
            old(self)@.next_id + old(self)@.n() <= u32::MAX,
        ensures
            final(self).wf(),
            final(self)@.tracks == spawn_from(
                old(self)@.tracks,
                old(self)@.next_id,
                *hop,
                old(self)@.cooldown,
                old(self)@.hop_counter,
                old(self)@.cfg,
                0,
            ),
            final(self)@.next_id == old(self)@.next_id + final(self)@.tracks.len()
                - old(self)@.tracks.len(),
            final(self)@ == (ManagerModel {
                tracks: final(self)@.tracks,
                next_id: final(self)@.next_id,
                ..old(self)@
            }),
    {
        let n: usize = self.channel_cooldown_until.len();
        let mut k: usize = 0;
        while k < n
            invariant
                k <= n + 1,
                n == self@.n(),
                self.wf(),
                self.owners_known(),
                hop.covers(n as nat),
                old(self)@.next_id + n <= u32::MAX,
                self@ == (ManagerModel {
                    tracks: self@.tracks,
                    next_id: self@.next_id,
                    ..old(self)@
                }),
                self@.next_id == old(self)@.next_id + self@.tracks.len() - old(self)@.tracks.len(),
                self@.next_id <= old(self)@.next_id + k,
                spawn_from(
                    old(self)@.tracks,
                    old(self)@.next_id,
                    *hop,
                    old(self)@.cooldown,
                    old(self)@.hop_counter,
                    old(self)@.cfg,
                    0,
                ) == spawn_from(
                    self@.tracks,
                    self@.next_id,
                    *hop,
                    self@.cooldown,
                    self@.hop_counter,
                    self@.cfg,
                    k as int,
                ),
            decreases n + 1 - k,
        {
            if self.is_eligible(hop, k) {
                if k + 1 < n && self.is_eligible(hop, k + 1) {
                    let winner: usize = if hop.power[k + 1].code > hop.power[k].code {
                        k + 1
                    } else {
                        k
                    };
                    self.spawn(winner, hop.snr[winner]);
                    k = k + 2;
                    continue;
                }
                self.spawn(k, hop.snr[k]);
            }
            k = k + 1;
        }
    }

    /// Close the weaker one of every two tracks that sit on the same signal. Each closure
    /// names a track that stays open.
    fn merge_converged(&mut self) -> (closures: Vec<Closure>)
        requires
            old(self).wf(),
        ensures
            final(self).wf(),
            closures@ == merged(old(self)@.tracks),
            final(self)@ == (ManagerModel {
                tracks: remaining(old(self)@.tracks, closures@),
                counts: CloseCounts {
                    merged: (old(self)@.counts.merged + closures@.len()) as u64,
                    ..old(self)@.counts
                },
                ..old(self)@
            }),
    {
        proof {
            lemma_merging(self@.tracks, self@.n(), self@.hop_counter, self@.next_id);
        }
        let (kept, closures) = merge_tracks(&self.tracks);
        self.tracks = kept;
        self.close_counts.merged = self.close_counts.merged + closures.len() as u64;
        proof {
            assert(self@ =~= (ManagerModel {
                tracks: remaining(old(self)@.tracks, closures@),
                counts: self.close_counts,
                ..old(self)@
            }));
        }
        closures
    }

    /// The place of the weakest track.
    fn find_weakest(&self) -> (w: usize)
        requires
            self.tracks@.len() > 0,
        ensures
            w == weakest(self@.tracks),
            w < self.tracks@.len(),
    {
        let ghost tracks = self@.tracks;
        let mut w: usize = 0;
        let mut i: usize = 1;
        while i < self.tracks.len()
            invariant
                1 <= i <= self.tracks.len(),
                w < i,
                tracks == self@.tracks,
                w == weakest(tracks.take(i as int)),
            decreases self.tracks.len() - i,
        {
            proof {
                assert(tracks.take(i + 1).drop_last() =~= tracks.take(i as int));
                assert(tracks[w as int] == self.tracks@[w as int]@);
                assert(tracks[i as int] == self.tracks@[i as int]@);
            }
            if self.tracks[i].current_snr().code < self.tracks[w].current_snr().code {
                w = i;
            }
            i = i + 1;
        }
        proof {
            assert(tracks.take(i as int) =~= tracks);
        }
        w
    }

    /// Give up the weakest tracks until no more than the cap are open.
    fn evict_over_cap(&mut self) -> (closures: Vec<Closure>)
        requires
            old(self).wf(),
        ensures
            final(self).wf(),
            ({
                let capped = within_cap(
                    old(self)@.tracks,
                    old(self)@.cfg.track_cap as nat,
                    Seq::empty(),
                );
                &&& closures@ == capped.1
                &&& final(self)@ == (ManagerModel {
                    tracks: capped.0,
                    counts: CloseCounts {
                        evicted: (old(self)@.counts.evicted + closures@.len()) as u64,
                        ..old(self)@.counts
                    },
                    ..old(self)@
                })
            }),
    {
        let mut closures: Vec<Closure> = Vec::new();
        proof {
            assert(self@ =~= (ManagerModel {
                counts: CloseCounts {
                    evicted: (old(self)@.counts.evicted + closures@.len()) as u64,
                    ..old(self)@.counts
                },
                ..old(self)@
            }));
        }
        while self.tracks.len() > self.cfg.track_cap
            invariant
                self.wf(),
                self@ == (ManagerModel {
                    tracks: self@.tracks,
                    counts: CloseCounts {
                        evicted: (old(self)@.counts.evicted + closures@.len()) as u64,
                        ..old(self)@.counts
                    },
                    ..old(self)@
                }),
                self.close_counts.evicted == old(self)@.counts.evicted + closures@.len(),
                within_cap(old(self)@.tracks, old(self)@.cfg.track_cap as nat, Seq::empty())
                    == within_cap(self@.tracks, self@.cfg.track_cap as nat, closures@),
            decreases self.tracks.len(),
        {
            let w: usize = self.find_weakest();
            let ghost before = self@;
            let track = self.tracks.remove(w);
            proof {
                assert(track@ == before.tracks[w as int]);
                assert(models(self.tracks@) =~= before.tracks.remove(w as int));
                lemma_remove_keeps_order(
                    before.tracks,
                    w as int,
                    before.n(),
                    before.hop_counter,
                    before.next_id,
                );
            }
            self.close_counts.record(CloseReason::Evicted);
            closures.push(
                Closure {
                    track_id: track.id(),
                    kind: ClosureKind::Bookkeeping { survivor_track_id: None },
                    forced: false,
                    reported: track.has_emitted(),
                },
            );
            proof {
                assert(self@ =~= (ManagerModel {
                    tracks: before.tracks.remove(w as int),
                    counts: self.close_counts,
                    ..before
                }));
            }
        }
        closures
    }

    /// Take one hop: free the channels that have gone quiet, let every track take the hop,
    /// give birth on channels that rise without an owner, merge tracks that sit on the same
    /// signal, and give up the weakest beyond the cap.
    pub fn step_hop(&mut self, hop: &HopObservation, sample_ts: u64, refine: bool) -> (out:
        StepOutcome)
        requires
            old(self).wf(),
            old(self)@.has_room(),
            hop.covers(old(self)@.n()),
        ensures
            final(self).wf(),
            final(self)@.wf(),
            final(self)@ == old(self)@.stepped(*hop, sample_ts, refine),
            out@ == old(self)@.outcome(*hop, sample_ts, refine),
    {
        self.free_quiet_channels(hop);
        let past_warmup = self.hop_counter >= self.cfg.warmup_hops;
        self.hop_counter = self.hop_counter + 1;
        let ghost advanced = ManagerModel {
            cooldown: freed(old(self)@.cooldown, hop.rise@),
            hop_counter: old(self)@.hop_counter + 1,
            ..old(self)@
        };
        proof {
            assert(self@ =~= advanced);
            assert forall|i: int| 0 <= i < self@.tracks.len() implies (#[trigger] self@.tracks[i]).wf(
                self@.n(),
                self@.hop_counter,
            ) && self@.tracks[i].refiner_hops < self@.hop_counter by {
                assert(old(self)@.tracks[i].wf(old(self)@.n(), old(self)@.hop_counter));
            }
        }
        let mut out = self.drive_tracks(hop, sample_ts, refine);
        self.recompute_ownership();
        if past_warmup {
            self.spawn_candidates(hop);
        }
        let ghost populated = self@;
        let mut merges = self.merge_converged();
        let mut evictions = self.evict_over_cap();
        self.recompute_ownership();
        let ghost lifecycle_closures = out.closures@;
        let ghost merge_closures = merges@;
        let ghost eviction_closures = evictions@;
        out.closures.append(&mut merges);
        out.closures.append(&mut evictions);
        proof {
            assert(populated.tracks == old(self)@.populated(*hop, sample_ts, refine));
            assert(out.closures@ =~= lifecycle_closures + merge_closures + eviction_closures);
            assert(out@ =~= old(self)@.outcome(*hop, sample_ts, refine));
            assert(self@ =~= old(self)@.stepped(*hop, sample_ts, refine));
        }
        out
    }

    /// How many tracks have a decoder, candidates not counted.
    pub fn decoding_track_count(&self) -> (count: usize)
        ensures
            count == decoding_count(self@.tracks),
            count <= self@.tracks.len(),
    {
        let ghost tracks = self@.tracks;
        let mut count: usize = 0;
        let mut i: usize = 0;
        proof {
            assert(tracks.take(0) =~= Seq::<TrackModel>::empty());
        }
        while i < self.tracks.len()
            invariant
                i <= self.tracks.len(),
                count <= i,
                tracks == self@.tracks,
                count == decoding_count(tracks.take(i as int)),
            decreases self.tracks.len() - i,
        {
            proof {
                assert(tracks.take(i + 1).drop_last() =~= tracks.take(i as int));
                assert(tracks[i as int] == self.tracks@[i as int]@);
            }
            if self.tracks[i].decoding() {
                count = count + 1;
            }
            i = i + 1;
        }
        proof {
            assert(tracks.take(i as int) =~= tracks);
        }
        count
    }

    /// Mark the tracks whose decoders reported `events`.
    fn note_events(&mut self, events: &Vec<DecoderEvent>)
        requires
            old(self).wf(),
        ensures
            final(self).wf(),
            final(self)@ == (ManagerModel {
                tracks: noted(old(self)@.tracks, events@),
                ..old(self)@
            }),
    {
        let ghost tracks = self@.tracks;
        let mut i: usize = 0;
        while i < self.tracks.len()
            invariant
                i <= self.tracks.len(),
                self.tracks.len() == tracks.len(),
                tracks == old(self)@.tracks,
                *self == (TrackManager { tracks: self.tracks, ..*old(self) }),
                forall|j: int|
                    0 <= j < i ==> (#[trigger] self.tracks@[j])@ == noted(tracks, events@)[j],
                forall|j: int| i <= j < tracks.len() ==> (#[trigger] self.tracks@[j])@ == tracks[j],
            decreases self.tracks.len() - i,
        {
            let mut track = self.tracks[i];
            let id: u32 = track.id();
            if has_spoken(events, id) {
                track.note_emitted(true);
            } else if is_heard(events, id) {
                track.note_emitted(false);
            }
            self.tracks.set(i, track);
            i = i + 1;
        }
        proof {
            assert(self@.tracks =~= noted(tracks, events@));
            assert(self@ =~= (ManagerModel { tracks: noted(tracks, events@), ..old(self)@ }));
            assert forall|j: int| 0 <= j < tracks.len() implies (#[trigger] self@.tracks[j]).wf(
                self@.n(),
                self@.hop_counter,
            ) && 0 < self@.tracks[j].id < self@.next_id by {
                assert(tracks[j].wf(self@.n(), self@.hop_counter));
            }
            assert forall|a: int, b: int| 0 <= a < b < tracks.len() implies (
            #[trigger] self@.tracks[a]).id < (#[trigger] self@.tracks[b]).id by {
                assert(tracks[a].id < tracks[b].id);
            }
        }
    }

    /// Complete a batch of hops. `pool` is what the decoders made of the hops that they
    /// were given, `promoted` and `closures` are what the hops brought, and `flushed` is
    /// what the decoders of the closed tracks gave at the end. The decoders' reports are
    /// noted with their tracks, and everything leaves in one order.
    pub fn process_hops(
        &mut self,
        pool: &Vec<DecoderEvent>,
        promoted: &Vec<DecoderEvent>,
        flushed: &Vec<DecoderEvent>,
        closures: &Vec<Closure>,
    ) -> (events: Vec<DecoderEvent>)
        requires
            old(self).wf(),
        ensures
            final(self).wf(),
            final(self)@.wf(),
            final(self)@ == (ManagerModel {
                tracks: noted(old(self)@.tracks, pool@),
                ..old(self)@
            }),
            events@ == batch_order(
                time_order(pool@) + promoted@ + flushed@ + closing_events(closures@),
                promoted@,
            ),
    {
        self.note_events(pool);
        let mut all = sort_by_time(pool);
        append_events(&mut all, promoted);
        append_events(&mut all, flushed);
        let mut i: usize = 0;
        let ghost reports = all@;
        proof {
            assert(closures@.take(0) =~= Seq::<Closure>::empty());
            assert(reports + Seq::<DecoderEvent>::empty() =~= reports);
        }
        while i < closures.len()
            invariant
                i <= closures.len(),
                all@ == reports + closing_events(closures@.take(i as int)),
            decreases closures.len() - i,
        {
            let c = closures[i];
            proof {
                assert(closures@.take(i + 1).drop_last() =~= closures@.take(i as int));
            }
            if c.reported {
                all.push(DecoderEvent::TrackClosed { track_id: c.track_id, closure: c.kind });
                proof {
                    assert(all@ =~= reports + closing_events(closures@.take(i + 1)));
                }
            }
            i = i + 1;
        }
        proof {
            assert(closures@.take(i as int) =~= closures@);
        }
        sort_batch(&all, promoted)
    }

    /// End the stream. `flushed` is what the decoders gave at the end; every track that has
    /// ever reported something is closed, and none stays open.
    pub fn finish(&mut self, flushed: &Vec<DecoderEvent>) -> (events: Vec<DecoderEvent>)
        requires
            old(self).wf(),
        ensures
            final(self).wf(),
            final(self)@.wf(),
            final(self)@ == (ManagerModel { tracks: Seq::empty(), ..old(self)@ }),
            events@ == time_order(
                time_order(flushed@) + final_events(old(self)@.tracks, flushed@),
            ),
    {
        let mut all = sort_by_time(flushed);
        let ghost tracks = self@.tracks;
        let ghost reports = all@;
        let mut i: usize = 0;
        proof {
            assert(tracks.take(0) =~= Seq::<TrackModel>::empty());
            assert(reports + Seq::<DecoderEvent>::empty() =~= reports);
        }
        while i < self.tracks.len()
            invariant
                i <= self.tracks.len(),
                *self == *old(self),
                tracks == self@.tracks,
                all@ == reports + final_events(tracks.take(i as int), flushed@),
            decreases self.tracks.len() - i,
        {
            let track = self.tracks[i];
            let id: u32 = track.id();
            proof {
                assert(tracks.take(i + 1).drop_last() =~= tracks.take(i as int));
                assert(tracks.take(i + 1).last() == track@);
            }
            if track.has_emitted() || is_heard(flushed, id) {
                all.push(
                    DecoderEvent::TrackClosed { track_id: id, closure: ClosureKind::SignalEnded },
                );
                proof {
                    assert(all@ =~= reports + final_events(tracks.take(i + 1), flushed@));
                }
            }
            i = i + 1;
        }
        proof {
            assert(tracks.take(i as int) =~= tracks);
        }
        self.tracks = Vec::new();
        proof {
            assert(self@.tracks =~= Seq::<TrackModel>::empty());
            assert(self@ =~= (ManagerModel { tracks: Seq::empty(), ..old(self)@ }));
        }
        sort_by_time(&all)
    }
}

fn append_events(all: &mut Vec<DecoderEvent>, more: &Vec<DecoderEvent>)
    ensures
        final(all)@ == old(all)@ + more@,
{
    let mut i: usize = 0;
    while i < more.len()
        invariant
            i <= more.len(),
            all@ == old(all)@ + more@.take(i as int),
        decreases more.len() - i,
    {
        all.push(more[i]);
        proof {
            assert(all@ =~= old(all)@ + more@.take(i + 1));
        }
        i = i + 1;
    }
    proof {
        assert(more@.take(i as int) =~= more@);
    }
}

/// Some event belongs to the track.
fn is_heard(events: &Vec<DecoderEvent>, id: u32) -> (yes: bool)
    ensures
        yes == heard(events@, id),
{
    let mut i: usize = 0;
    while i < events.len()
        invariant
            i <= events.len(),
            forall|j: int| 0 <= j < i ==> spec_event_track_id(#[trigger] events@[j]) != id,
        decreases events.len() - i,
    {
        if event_track_id(&events[i]) == id {
            return true;
        }
        i = i + 1;
    }
    false
}

/// Some event is a character of the track.
fn has_spoken(events: &Vec<DecoderEvent>, id: u32) -> (yes: bool)
    ensures
        yes == spoke(events@, id),
        yes ==> heard(events@, id),
{
    let mut i: usize = 0;
    while i < events.len()
        invariant
            i <= events.len(),
            forall|j: int|
                0 <= j < i ==> spec_event_track_id(#[trigger] events@[j]) != id || !(
                events@[j] is CharDecoded),
        decreases events.len() - i,
    {
        let event = events[i];
        if let DecoderEvent::CharDecoded { track_id, .. } = event {
            if track_id == id {
                return true;
            }
        }
        i = i + 1;
    }
    false
}

/// The track is among those that ended.
fn has_ended(closures: &Vec<Closure>, id: u32) -> (yes: bool)
    ensures
        yes == ended(closures@, id),
{
    let mut i: usize = 0;
    while i < closures.len()
        invariant
            i <= closures.len(),
            forall|j: int| 0 <= j < i ==> (#[trigger] closures@[j]).track_id != id,
        decreases closures.len() - i,
    {
        if closures[i].track_id == id {
            return true;
        }
        i = i + 1;
    }
    false
}

fn merge_loss(loser: &Track, survivor: &Track) -> (closure: Closure)
    ensures
        closure.track_id == loser@.id,
        closure.kind == (ClosureKind::Bookkeeping { survivor_track_id: Some(survivor@.id) }),
        !closure.forced,
        closure.reported == loser@.has_emitted,
{
    Closure {
        track_id: loser.id(),
        kind: ClosureKind::Bookkeeping { survivor_track_id: Some(survivor.id()) },
        forced: false,
        reported: loser.has_emitted(),
    }
}

/// The tracks that end because they converged with another, each with the one that it was
/// paired with.
fn find_converged(tracks: &Vec<Track>) -> (closures: Vec<Closure>)
    ensures
        closures@ == pairings(models(tracks@)),
{
    let ghost all = models(tracks@);
    let mut closures: Vec<Closure> = Vec::new();
    let len: usize = tracks.len();
    let mut i: usize = 0;
    while i < len
        invariant
            i <= len,
            len == tracks.len(),
            all == models(tracks@),
            pairings(all) == merge_from(all, i as int, i + 1, closures@),
        decreases len - i,
    {
        let a = tracks[i];
        let mut j: usize = i + 1;
        while j < len
            invariant
                i < j <= len,
                len == tracks.len(),
                all == models(tracks@),
                a@ == all[i as int],
                pairings(all) == merge_from(all, i as int, j as int, closures@),
            decreases len - j,
        {
            let b = tracks[j];
            proof {
                assert(b@ == all[j as int]);
            }
            if !has_ended(&closures, a.id()) && !has_ended(&closures, b.id()) {
                let apart: i128 = a.center() as i128 - b.center() as i128;
                if -(CHANNEL as i128) < apart && apart < CHANNEL as i128 {
                    let closure = if a.current_snr().code <= b.current_snr().code {
                        merge_loss(&a, &b)
                    } else {
                        merge_loss(&b, &a)
                    };
                    closures.push(closure);
                }
            }
            j = j + 1;
        }
        i = i + 1;
    }
    closures
}

/// Of tracks in the order of their identities, those that stay once the weaker one of every
/// two that sit on the same signal is closed, and the closures of the others. Each closure
/// names a track that stays.
pub fn merge_tracks(tracks: &Vec<Track>) -> (r: (Vec<Track>, Vec<Closure>))
    ensures
        r.1@ == merged(models(tracks@)),
        models(r.0@) == remaining(models(tracks@), r.1@),
{
    let pairs = find_converged(tracks);
    let closures = resolve_survivors(&pairs);
    let ghost all = models(tracks@);
    let mut kept: Vec<Track> = Vec::new();
    let mut i: usize = 0;
    proof {
        assert(all.take(0) =~= Seq::<TrackModel>::empty());
        assert(models(kept@) =~= Seq::<TrackModel>::empty());
    }
    while i < tracks.len()
        invariant
            i <= tracks.len(),
            all == models(tracks@),
            models(kept@) == remaining(all.take(i as int), closures@),
        decreases tracks.len() - i,
    {
        let track = tracks[i];
        proof {
            assert(all.take(i + 1).drop_last() =~= all.take(i as int));
            assert(all.take(i + 1).last() == track@);
        }
        if !has_ended(&closures, track.id()) {
            let ghost before = kept@;
            kept.push(track);
            proof {
                assert(models(kept@) =~= models(before).push(track@));
            }
        }
        i = i + 1;
    }
    proof {
        assert(all.take(i as int) =~= all);
    }
    (kept, closures)
}

/// The track that a closure names, or the one that it ends where it names none.
fn survivor_named(c: &Closure) -> (id: u32)
    ensures
        id == named_survivor(*c),
{
    match c.kind {
        ClosureKind::Bookkeeping { survivor_track_id: Some(id) } => id,
        _ => c.track_id,
    }
}

/// Names in every pairing the track in which the loser lives on once all are through.
fn resolve_survivors(pairs: &Vec<Closure>) -> (closures: Vec<Closure>)
    ensures
        closures@ == Seq::new(pairs@.len(), |k: int| resolved(pairs@, k)),
{
    let mut closures: Vec<Closure> = Vec::new();
    let mut k: usize = 0;
    while k < pairs.len()
        invariant
            k <= pairs.len(),
            closures@.len() == k,
            forall|j: int| 0 <= j < k ==> #[trigger] closures@[j] == resolved(pairs@, j),
        decreases pairs.len() - k,
    {
        let mut id: u32 = survivor_named(&pairs[k]);
        let mut from: usize = k + 1;
        while from < pairs.len()
            invariant
                k < from <= pairs.len(),
                final_survivor(pairs@, named_survivor(pairs@[k as int]), k + 1)
                    == final_survivor(pairs@, id, from as int),
            decreases pairs.len() - from,
        {
            if pairs[from].track_id == id {
                id = survivor_named(&pairs[from]);
            }
            from = from + 1;
        }
        let c = pairs[k];
        closures.push(
            Closure {
                track_id: c.track_id,
                kind: ClosureKind::Bookkeeping { survivor_track_id: Some(id) },
                forced: c.forced,
                reported: c.reported,
            },
        );
        k = k + 1;
    }
    proof {
        assert(closures@ =~= Seq::new(pairs@.len(), |k: int| resolved(pairs@, k)));
    }
    closures
}

pub proof fn lemma_remove_keeps_order(
    tracks: Seq<TrackModel>,
    w: int,
    n: nat,
    hops: nat,
    next_id: u32,
)
    requires
        0 <= w < tracks.len(),
        tracks_wf(tracks, n, hops, next_id),
    ensures
        tracks_wf(tracks.remove(w), n, hops, next_id),
{
    let rest = tracks.remove(w);
    assert forall|i: int| 0 <= i < rest.len() implies (#[trigger] rest[i]).wf(n, hops) && 0
        < rest[i].id < next_id by {
        assert(rest[i] == tracks[if i < w { i } else { i + 1 }]);
    }
    assert forall|i: int, j: int| 0 <= i < j < rest.len() implies (#[trigger] rest[i]).id < (
    #[trigger] rest[j]).id by {
        assert(rest[i] == tracks[if i < w { i } else { i + 1 }]);
        assert(rest[j] == tracks[if j < w { j } else { j + 1 }]);
    }
}

} // verus!
