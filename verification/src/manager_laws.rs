//! What holds of the track manager from hop to hop.

use crate::events::{
    closures_at_the_end, law_final_closure_ends_its_track, law_time_order_keeps_every_event,
    spec_event_sample_ts, spec_event_track_id, time_order, ClosureKind, DecoderEvent,
};
use crate::level::Level;
use crate::lifecycle::{
    CloseReason, DetectorConfig, LifecycleEvent, LifecycleModel, LifecycleState,
};
use crate::manager::{
    closing_events, closures_of, converged, drive_all, eligible, ended, final_events,
    final_survivor, heard, ids_ascend, known, merge_closure, merge_from, merged, named_survivor,
    noted, owner, pairings, remaining, spawn_from, tracks_wf, weakest, within_cap, Closure,
    DrivenModel, ManagerModel,
};
use crate::peak::told;
use crate::track::{DecoderFeed, HopObservation, TrackModel};
use vstd::prelude::*;

verus! {

/// Identities of the tracks that have a decoder.
pub open spec fn decoding_ids(tracks: Seq<TrackModel>) -> Seq<u32>
    decreases tracks.len(),
{
    if tracks.len() == 0 {
        Seq::empty()
    } else if tracks.last().decoding {
        decoding_ids(tracks.drop_last()).push(tracks.last().id)
    } else {
        decoding_ids(tracks.drop_last())
    }
}

pub open spec fn fed_ids(feeds: Seq<DecoderFeed>) -> Seq<u32> {
    Seq::new(feeds.len(), |i: int| feeds[i].track_id)
}

/// The closure says that the signal ended if and only if its decoder is forced.
pub open spec fn forced_means_ended(closures: Seq<Closure>) -> bool {
    forall|i: int|
        0 <= i < closures.len() ==> ((#[trigger] closures[i]).forced <==> closures[i].kind
            == ClosureKind::SignalEnded)
}

proof fn lemma_drive_counts(
    tracks: Seq<TrackModel>,
    hop: HopObservation,
    sample_ts: u64,
    refine: bool,
    until: nat,
    start: DrivenModel,
)
    requires
        start.kept.len() == 0,
        start.outcome.closures.len() == 0,
        start.outcome.feeds.len() == 0,
        start.counts.total() + tracks.len() <= u64::MAX,
    ensures
        ({
            let done = drive_all(tracks, hop, sample_ts, refine, until, start);
            &&& done.cooldown.len() == start.cooldown.len()
            &&& forall|k: int|
                0 <= k < start.cooldown.len() ==> (#[trigger] done.cooldown[k]) == start.cooldown[k]
                    || done.cooldown[k] == until
            &&& done.kept.len() + done.outcome.closures.len() == tracks.len()
            &&& done.counts.total() == start.counts.total() + done.outcome.closures.len()
            &&& fed_ids(done.outcome.feeds) == decoding_ids(done.kept)
            &&& forall|i: int|
                0 <= i < done.outcome.feeds.len() ==> (#[trigger] done.outcome.feeds[i]).sample_ts
                    == sample_ts
            &&& forced_means_ended(done.outcome.closures)
        }),
    decreases tracks.len(),
{
    let done = drive_all(tracks, hop, sample_ts, refine, until, start);
    if tracks.len() == 0 {
        assert(fed_ids(done.outcome.feeds) =~= decoding_ids(done.kept));
    } else {
        let rest = tracks.drop_last();
        lemma_drive_counts(rest, hop, sample_ts, refine, until, start);
        let inner = drive_all(rest, hop, sample_ts, refine, until, start);
        if !(tracks.last().event(hop, start.cooldown.len()) is Closed) {
            assert(done.kept.drop_last() =~= inner.kept);
            assert(fed_ids(done.outcome.feeds) =~= decoding_ids(done.kept));
        }
    }
}

proof fn lemma_drive_ids(
    tracks: Seq<TrackModel>,
    hop: HopObservation,
    sample_ts: u64,
    refine: bool,
    until: nat,
    start: DrivenModel,
)
    requires
        start.kept.len() == 0,
        start.outcome.closures.len() == 0,
        ids_ascend(tracks),
    ensures
        ({
            let done = drive_all(tracks, hop, sample_ts, refine, until, start);
            &&& forall|i: int|
                0 <= i < done.kept.len() ==> known(tracks, (#[trigger] done.kept[i]).id) && !ended(
                    done.outcome.closures,
                    done.kept[i].id,
                )
            &&& closures_of(done.outcome.closures, tracks)
        }),
    decreases tracks.len(),
{
    if tracks.len() > 0 {
        let done = drive_all(tracks, hop, sample_ts, refine, until, start);
        let rest = tracks.drop_last();
        let track = tracks.last();
        assert(ids_ascend(rest)) by {
            assert forall|i: int, j: int| 0 <= i < j < rest.len() implies (#[trigger] rest[i]).id < (
            #[trigger] rest[j]).id by {
                assert(tracks[i].id < tracks[j].id);
            }
        }
        lemma_drive_ids(rest, hop, sample_ts, refine, until, start);
        let inner = drive_all(rest, hop, sample_ts, refine, until, start);
        let (closures, before) = (done.outcome.closures, inner.outcome.closures);
        assert forall|id: u32| known(rest, id) implies #[trigger] known(tracks, id) && id
            != track.id by {
            let i = choose|i: int| 0 <= i < rest.len() && (#[trigger] rest[i]).id == id;
            assert(tracks[i].id == id);
            assert(tracks[i].id < tracks[tracks.len() - 1].id);
        }
        assert(known(tracks, track.id)) by {
            assert(tracks[tracks.len() - 1].id == track.id);
        }
        assert forall|i: int| 0 <= i < before.len() implies known(
            rest,
            (#[trigger] before[i]).track_id,
        ) by {}
        let closed = track.event(hop, start.cooldown.len()) is Closed;
        assert(closed ==> closures.len() == before.len() + 1 && closures.last().track_id == track.id);
        assert(!closed ==> closures == before);
        assert forall|i: int| 0 <= i < closures.len() implies known(
            tracks,
            (#[trigger] closures[i]).track_id,
        ) && (i < before.len() ==> closures[i] == before[i]) by {
            if i < before.len() {
                assert(closures[i] == before[i]);
                assert(known(rest, before[i].track_id));
            }
        }
        assert forall|i: int, j: int| 0 <= i < j < closures.len() implies (
        #[trigger] closures[i]).track_id != (#[trigger] closures[j]).track_id by {
            assert(known(rest, before[i].track_id));
            if j < before.len() {
                assert(before[i].track_id != before[j].track_id);
            }
        }
        assert forall|i: int| 0 <= i < done.kept.len() implies known(
            tracks,
            (#[trigger] done.kept[i]).id,
        ) && !ended(closures, done.kept[i].id) by {
            let id = done.kept[i].id;
            if i < inner.kept.len() {
                assert(done.kept[i] == inner.kept[i]);
                assert(known(rest, id) && !ended(before, id));
            } else {
                assert(id == track.id && !closed);
            }
            if ended(closures, id) {
                let m = choose|m: int| 0 <= m < closures.len() && (#[trigger] closures[m]).track_id
                    == id;
                if m < before.len() {
                    assert(before[m].track_id == id);
                    assert(known(rest, before[m].track_id));
                }
            }
        }
    }
}

/// A decoder, once leased, is given every hop: the hop's feeds go to exactly those tracks
/// that have a decoder and did not end by themselves, once each, in order, and every feed
/// carries the hop's own time.
pub proof fn law_every_decoder_is_fed_every_hop(
    m: ManagerModel,
    hop: HopObservation,
    sample_ts: u64,
    refine: bool,
)
    requires
        m.wf(),
    ensures
        fed_ids(m.outcome(hop, sample_ts, refine).feeds) == decoding_ids(
            m.driven(hop, sample_ts, refine).kept,
        ),
        forall|i: int|
            0 <= i < m.outcome(hop, sample_ts, refine).feeds.len() ==> (#[trigger] m.outcome(
                hop,
                sample_ts,
                refine,
            ).feeds[i]).sample_ts == sample_ts,
{
    lemma_driven(m, hop, sample_ts, refine);
}

proof fn lemma_driven(m: ManagerModel, hop: HopObservation, sample_ts: u64, refine: bool)
    requires
        m.wf(),
    ensures
        ({
            let done = m.driven(hop, sample_ts, refine);
            let until = m.hop_counter + 1 + m.cfg.silent_respawn_cooldown_hops as nat;
            &&& done.cooldown.len() == m.n()
            &&& forall|k: int|
                0 <= k < m.n() ==> (#[trigger] done.cooldown[k]) == until || done.cooldown[k] == (
                if hop.rise@[k] {
                    m.cooldown[k]
                } else {
                    0
                })
            &&& done.kept.len() + done.outcome.closures.len() == m.tracks.len()
            &&& done.counts.total() == m.counts.total() + done.outcome.closures.len()
            &&& fed_ids(done.outcome.feeds) == decoding_ids(done.kept)
            &&& forall|i: int|
                0 <= i < done.outcome.feeds.len() ==> (#[trigger] done.outcome.feeds[i]).sample_ts
                    == sample_ts
            &&& forced_means_ended(done.outcome.closures)
            &&& forall|i: int|
                0 <= i < done.kept.len() ==> known(m.tracks, (#[trigger] done.kept[i]).id) && !ended(
                    done.outcome.closures,
                    done.kept[i].id,
                )
            &&& closures_of(done.outcome.closures, m.tracks)
        }),
{
    let start = DrivenModel {
        kept: Seq::empty(),
        outcome: crate::manager::OutcomeModel {
            feeds: Seq::empty(),
            promoted: Seq::empty(),
            closures: Seq::empty(),
        },
        counts: m.counts,
        cooldown: crate::manager::freed(m.cooldown, hop.rise@),
    };
    let until = m.hop_counter + 1 + m.cfg.silent_respawn_cooldown_hops as nat;
    assert(ids_ascend(m.tracks));
    lemma_drive_counts(m.tracks, hop, sample_ts, refine, until, start);
    lemma_drive_ids(m.tracks, hop, sample_ts, refine, until, start);
}

/// A channel that does not rise is free after the hop, unless a silent track closed there
/// on this very hop; a channel that rises stays barred as long as it was.
pub proof fn law_only_quiet_or_time_frees_a_channel(
    m: ManagerModel,
    hop: HopObservation,
    sample_ts: u64,
    refine: bool,
    channel: int,
)
    requires
        m.wf(),
        0 <= channel < m.n(),
    ensures
        ({
            let then = m.stepped(hop, sample_ts, refine).cooldown[channel];
            let until = m.hop_counter + 1 + m.cfg.silent_respawn_cooldown_hops as nat;
            then == until || then == (if hop.rise@[channel] {
                m.cooldown[channel]
            } else {
                0
            })
        }),
{
    lemma_driven(m, hop, sample_ts, refine);
}

proof fn lemma_owner_of_more(tracks: Seq<TrackModel>, t: TrackModel, n: nat, channel: int)
    ensures
        owner(tracks.push(t), n, channel) is None ==> owner(tracks, n, channel) is None,
{
    assert(tracks.push(t).drop_last() =~= tracks);
}

/// Track `i` of `tracks` was born on this hop, on a channel that was rising, free and not
/// barred.
pub open spec fn born_rightly(
    tracks: Seq<TrackModel>,
    i: int,
    kept: Seq<TrackModel>,
    hop: HopObservation,
    cooldown: Seq<nat>,
    now: nat,
    next_id: u32,
) -> bool {
    &&& eligible(kept, hop, cooldown, now, tracks[i].birth)
    &&& tracks[i].id >= next_id
    &&& tracks[i].snr == hop.snr@[tracks[i].birth]
}

proof fn lemma_spawn_from(
    tracks: Seq<TrackModel>,
    next_id: u32,
    hop: HopObservation,
    cooldown: Seq<nat>,
    now: nat,
    cfg: crate::lifecycle::DetectorConfig,
    k: int,
    kept: Seq<TrackModel>,
    first_id: u32,
)
    requires
        0 <= k,
        kept.is_prefix_of(tracks),
        first_id <= next_id,
        next_id + cooldown.len() - k <= u32::MAX,
        forall|c: int| owner(tracks, cooldown.len(), c) is None ==> (#[trigger] owner(
            kept,
            cooldown.len(),
            c,
        )) is None,
        forall|i: int|
            kept.len() <= i < tracks.len() ==> #[trigger] born_rightly(
                tracks,
                i,
                kept,
                hop,
                cooldown,
                now,
                first_id,
            ),
    ensures
        ({
            let all = spawn_from(tracks, next_id, hop, cooldown, now, cfg, k);
            &&& kept.is_prefix_of(all)
            &&& all.len() <= tracks.len() + (if k < cooldown.len() {
                cooldown.len() - k
            } else {
                0
            })
            &&& forall|i: int|
                kept.len() <= i < all.len() ==> #[trigger] born_rightly(
                    all,
                    i,
                    kept,
                    hop,
                    cooldown,
                    now,
                    first_id,
                )
        }),
    decreases cooldown.len() - k,
{
    let n = cooldown.len();
    if k >= n {
    } else if !eligible(tracks, hop, cooldown, now, k) {
        lemma_spawn_from(tracks, next_id, hop, cooldown, now, cfg, k + 1, kept, first_id);
    } else {
        let both = eligible(tracks, hop, cooldown, now, k + 1);
        let winner = if both && hop.power@[k + 1].code > hop.power@[k].code {
            k + 1
        } else {
            k
        };
        let t = TrackModel::born(next_id, winner, cfg, hop.snr@[winner]);
        let more = tracks.push(t);
        assert(eligible(kept, hop, cooldown, now, winner));
        assert forall|c: int| owner(more, n, c) is None implies (#[trigger] owner(kept, n, c)) is None by {
            lemma_owner_of_more(tracks, t, n, c);
        }
        assert forall|i: int| kept.len() <= i < more.len() implies #[trigger] born_rightly(
            more,
            i,
            kept,
            hop,
            cooldown,
            now,
            first_id,
        ) by {
            if i < tracks.len() {
                assert(born_rightly(tracks, i, kept, hop, cooldown, now, first_id));
                assert(more[i] == tracks[i]);
            }
        }
        assert(kept.is_prefix_of(more)) by {
            assert(kept =~= more.subrange(0, kept.len() as int));
        }
        lemma_spawn_from(
            more,
            (next_id + 1) as u32,
            hop,
            cooldown,
            now,
            cfg,
            if both { k + 2 } else { k + 1 },
            kept,
            first_id,
        );
    }
}

/// Tracks are born only after the warm-up, and only on channels that rise, that no track
/// owns, and that are not barred. The tracks that were there before stay as they are.
pub proof fn law_births_need_a_free_rising_channel(
    m: ManagerModel,
    hop: HopObservation,
    sample_ts: u64,
    refine: bool,
)
    requires
        m.wf(),
        m.has_room(),
    ensures
        ({
            let driven = m.driven(hop, sample_ts, refine);
            let populated = m.populated(hop, sample_ts, refine);
            &&& driven.kept.is_prefix_of(populated)
            &&& m.hop_counter < m.cfg.warmup_hops ==> populated == driven.kept
            &&& forall|i: int|
                driven.kept.len() <= i < populated.len() ==> #[trigger] born_rightly(
                    populated,
                    i,
                    driven.kept,
                    hop,
                    driven.cooldown,
                    m.hop_counter + 1,
                    m.next_id,
                )
            &&& populated.len() <= driven.kept.len() + m.n()
        }),
{
    lemma_driven(m, hop, sample_ts, refine);
    let driven = m.driven(hop, sample_ts, refine);
    lemma_spawn_from(
        driven.kept,
        m.next_id,
        hop,
        driven.cooldown,
        m.hop_counter + 1,
        m.cfg,
        0,
        driven.kept,
        m.next_id,
    );
}

proof fn lemma_ended_in_longer(closures: Seq<Closure>, more: Seq<Closure>, id: u32)
    requires
        closures.is_prefix_of(more),
        ended(closures, id),
    ensures
        ended(more, id),
{
    let i = choose|i: int| 0 <= i < closures.len() && (#[trigger] closures[i]).track_id == id;
    assert(more[i] == closures[i]);
}

proof fn lemma_merge_keeps_closures(
    tracks: Seq<TrackModel>,
    i: int,
    j: int,
    closures: Seq<Closure>,
)
    ensures
        closures.is_prefix_of(merge_from(tracks, i, j, closures)),
    decreases tracks.len() - i, tracks.len() - j,
{
    if i >= tracks.len() {
    } else if j >= tracks.len() {
        lemma_merge_keeps_closures(tracks, i + 1, i + 2, closures);
    } else if ended(closures, tracks[i].id) || ended(closures, tracks[j].id) || !converged(
        tracks[i],
        tracks[j],
    ) {
        lemma_merge_keeps_closures(tracks, i, j + 1, closures);
    } else {
        let c = merge_closure(tracks[i], tracks[j]);
        lemma_merge_keeps_closures(tracks, i, j + 1, closures.push(c));
        let all = merge_from(tracks, i, j, closures);
        assert(closures =~= closures.push(c).subrange(0, closures.len() as int));
        assert(closures =~= all.subrange(0, closures.len() as int));
    }
}

/// No two of the tracks that outlive the scan from `(i, j)` on are converged.
proof fn lemma_merge_separates(
    tracks: Seq<TrackModel>,
    i: int,
    j: int,
    closures: Seq<Closure>,
    a: int,
    b: int,
)
    requires
        0 <= i < j,
        0 <= a < b < tracks.len(),
        a > i || a == i && b >= j,
        !ended(merge_from(tracks, i, j, closures), tracks[a].id),
        !ended(merge_from(tracks, i, j, closures), tracks[b].id),
    ensures
        !converged(tracks[a], tracks[b]),
    decreases tracks.len() - i, tracks.len() - j,
{
    if i >= tracks.len() {
    } else if j >= tracks.len() {
        lemma_merge_separates(tracks, i + 1, i + 2, closures, a, b);
    } else if ended(closures, tracks[i].id) || ended(closures, tracks[j].id) || !converged(
        tracks[i],
        tracks[j],
    ) {
        if a == i && b == j {
            lemma_merge_keeps_closures(tracks, i, j, closures);
            let all = merge_from(tracks, i, j, closures);
            if ended(closures, tracks[i].id) {
                lemma_ended_in_longer(closures, all, tracks[i].id);
            }
            if ended(closures, tracks[j].id) {
                lemma_ended_in_longer(closures, all, tracks[j].id);
            }
        } else {
            lemma_merge_separates(tracks, i, j + 1, closures, a, b);
        }
    } else {
        let c = merge_closure(tracks[i], tracks[j]);
        let more = closures.push(c);
        if a == i && b == j {
            lemma_merge_keeps_closures(tracks, i, j + 1, more);
            assert(more[closures.len() as int].track_id == c.track_id);
            lemma_ended_in_longer(more, merge_from(tracks, i, j, closures), c.track_id);
        } else {
            lemma_merge_separates(tracks, i, j + 1, more, a, b);
        }
    }
}

/// The closure comes from two converged tracks of the list.
pub open spec fn merge_is_due(tracks: Seq<TrackModel>, c: Closure) -> bool {
    exists|a: int, b: int|
        0 <= a < b < tracks.len() && converged(tracks[a], tracks[b]) && c == #[trigger] merge_closure(
            tracks[a],
            tracks[b],
        )
}

proof fn lemma_merges_are_due(
    tracks: Seq<TrackModel>,
    i: int,
    j: int,
    closures: Seq<Closure>,
    at: int,
)
    requires
        0 <= i < j,
        forall|k: int| 0 <= k < closures.len() ==> merge_is_due(tracks, #[trigger] closures[k]),
        0 <= at < merge_from(tracks, i, j, closures).len(),
    ensures
        merge_is_due(tracks, merge_from(tracks, i, j, closures)[at]),
    decreases tracks.len() - i, tracks.len() - j,
{
    if i >= tracks.len() {
    } else if j >= tracks.len() {
        lemma_merges_are_due(tracks, i + 1, i + 2, closures, at);
    } else if ended(closures, tracks[i].id) || ended(closures, tracks[j].id) || !converged(
        tracks[i],
        tracks[j],
    ) {
        lemma_merges_are_due(tracks, i, j + 1, closures, at);
    } else {
        let c = merge_closure(tracks[i], tracks[j]);
        assert(merge_is_due(tracks, c));
        lemma_merges_are_due(tracks, i, j + 1, closures.push(c), at);
    }
}

proof fn lemma_merges_are_not_forced(tracks: Seq<TrackModel>, at: int)
    requires
        0 <= at < merged(tracks).len(),
    ensures
        !merged(tracks)[at].forced,
        merged(tracks)[at].kind != ClosureKind::SignalEnded,
{
    lemma_merges_are_due(tracks, 0, 1, Seq::empty(), at);
    assert(merged(tracks)[at].forced == pairings(tracks)[at].forced);
}

/// The pairing names another track of the list that is not paired off up to and with it.
spec fn names_a_live_track(tracks: Seq<TrackModel>, pairs: Seq<Closure>, k: int) -> bool {
    let id = named_survivor(pairs[k]);
    known(tracks, id) && !ended(pairs.take(k + 1), id)
}

proof fn lemma_pairings_name_live_tracks(
    tracks: Seq<TrackModel>,
    i: int,
    j: int,
    closures: Seq<Closure>,
    at: int,
)
    requires
        0 <= i < j,
        ids_ascend(tracks),
        forall|k: int|
            0 <= k < closures.len() ==> #[trigger] names_a_live_track(tracks, closures, k),
        0 <= at < merge_from(tracks, i, j, closures).len(),
    ensures
        names_a_live_track(tracks, merge_from(tracks, i, j, closures), at),
    decreases tracks.len() - i, tracks.len() - j,
{
    if i >= tracks.len() {
    } else if j >= tracks.len() {
        lemma_pairings_name_live_tracks(tracks, i + 1, i + 2, closures, at);
    } else if ended(closures, tracks[i].id) || ended(closures, tracks[j].id) || !converged(
        tracks[i],
        tracks[j],
    ) {
        lemma_pairings_name_live_tracks(tracks, i, j + 1, closures, at);
    } else {
        let c = merge_closure(tracks[i], tracks[j]);
        let more = closures.push(c);
        assert(tracks[i].id < tracks[j].id);
        assert forall|k: int| 0 <= k < more.len() implies #[trigger] names_a_live_track(
            tracks,
            more,
            k,
        ) by {
            if k < closures.len() {
                assert(names_a_live_track(tracks, closures, k));
                assert(more.take(k + 1) =~= closures.take(k + 1));
                assert(more[k] == closures[k]);
            } else {
                let id = named_survivor(c);
                assert(known(tracks, id)) by {
                    if id == tracks[i].id {
                    } else {
                        assert(tracks[j].id == id);
                    }
                }
                assert(more.take(k + 1) =~= more);
                if ended(more, id) {
                    let e = choose|e: int| 0 <= e < more.len() && (#[trigger] more[e]).track_id
                        == id;
                    if e < closures.len() {
                        assert(closures[e].track_id == id);
                        assert(ended(closures, id));
                    }
                }
            }
        }
        lemma_pairings_name_live_tracks(tracks, i, j + 1, more, at);
    }
}

/// A track that is open after the pairings up to `from` lives on in one that is open after
/// all of them and at least as strong.
proof fn lemma_final_survivor(tracks: Seq<TrackModel>, i: int, from: int) -> (s: int)
    requires
        ids_ascend(tracks),
        0 <= i < tracks.len(),
        0 <= from <= pairings(tracks).len(),
        !ended(pairings(tracks).take(from), tracks[i].id),
    ensures
        0 <= s < tracks.len(),
        tracks[s].id == final_survivor(pairings(tracks), tracks[i].id, from),
        tracks[i].snr.code <= tracks[s].snr.code,
        !ended(pairings(tracks), tracks[s].id),
    decreases pairings(tracks).len() - from,
{
    let pairs = pairings(tracks);
    if from >= pairs.len() {
        assert(pairs.take(from) =~= pairs);
        i
    } else {
        let next = pairs.take(from + 1);
        if pairs[from].track_id == tracks[i].id {
            lemma_pairings_name_live_tracks(tracks, 0, 1, Seq::empty(), from);
            lemma_merges_are_due(tracks, 0, 1, Seq::empty(), from);
            let c = pairs[from];
            let (a, b) = choose|a: int, b: int|
                0 <= a < b < tracks.len() && converged(tracks[a], tracks[b]) && c
                    == #[trigger] merge_closure(tracks[a], tracks[b]);
            let (loser, rival) = if tracks[a].snr.code <= tracks[b].snr.code {
                (a, b)
            } else {
                (b, a)
            };
            assert(tracks[loser].id == tracks[i].id);
            if loser < i {
                assert(tracks[loser].id < tracks[i].id);
            } else if i < loser {
                assert(tracks[i].id < tracks[loser].id);
            }
            assert(named_survivor(c) == tracks[rival].id);
            lemma_final_survivor(tracks, rival, from + 1)
        } else {
            if ended(next, tracks[i].id) {
                let e = choose|e: int| 0 <= e < next.len() && (#[trigger] next[e]).track_id
                    == tracks[i].id;
                assert(e < from);
                assert(pairs.take(from)[e].track_id == tracks[i].id);
            }
            lemma_final_survivor(tracks, i, from + 1)
        }
    }
}

/// A track is merged away only because another one was less than a channel off and at least
/// as strong; the one that it is said to live on in is at least as strong as both, and stays
/// open.
pub proof fn law_merging_keeps_the_stronger(tracks: Seq<TrackModel>, at: int)
    requires
        ids_ascend(tracks),
        0 <= at < merged(tracks).len(),
    ensures
        exists|loser: int, rival: int, survivor: int|
            #![trigger tracks[loser], tracks[rival], tracks[survivor]]
            0 <= loser < tracks.len() && 0 <= rival < tracks.len() && 0 <= survivor < tracks.len()
                && loser != rival && converged(tracks[loser], tracks[rival])
                && tracks[loser].snr.code <= tracks[rival].snr.code <= tracks[survivor].snr.code
                && merged(tracks)[at].track_id == tracks[loser].id && merged(tracks)[at].kind == (
            ClosureKind::Bookkeeping { survivor_track_id: Some(tracks[survivor].id) }) && !ended(
                merged(tracks),
                tracks[survivor].id,
            ),
{
    let pairs = pairings(tracks);
    lemma_merges_are_due(tracks, 0, 1, Seq::empty(), at);
    lemma_pairings_name_live_tracks(tracks, 0, 1, Seq::empty(), at);
    let c = pairs[at];
    let (a, b) = choose|a: int, b: int|
        0 <= a < b < tracks.len() && converged(tracks[a], tracks[b]) && c == #[trigger] merge_closure(
            tracks[a],
            tracks[b],
        );
    let (loser, rival) = if tracks[a].snr.code <= tracks[b].snr.code {
        (a, b)
    } else {
        (b, a)
    };
    assert(named_survivor(c) == tracks[rival].id);
    let survivor = lemma_final_survivor(tracks, rival, at + 1);
    crate::manager::lemma_merged_ends_the_paired(tracks, tracks[survivor].id);
    assert(converged(tracks[loser], tracks[rival]));
    assert(merged(tracks)[at] == crate::manager::resolved(pairs, at));
    assert(tracks[loser].snr.code <= tracks[rival].snr.code <= tracks[survivor].snr.code);
}

/// Every track that is merged away names a track that stays open, so that what it has
/// gathered can move there, also where tracks converge in a chain.
pub proof fn law_merged_tracks_name_an_open_one(tracks: Seq<TrackModel>, at: int)
    requires
        ids_ascend(tracks),
        0 <= at < merged(tracks).len(),
    ensures
        merged(tracks)[at].kind matches ClosureKind::Bookkeeping { survivor_track_id: Some(id) }
            && known(remaining(tracks, merged(tracks)), id),
{
    law_merging_keeps_the_stronger(tracks, at);
    let (loser, rival, survivor) = choose|loser: int, rival: int, survivor: int|
        #![trigger tracks[loser], tracks[rival], tracks[survivor]]
        0 <= loser < tracks.len() && 0 <= rival < tracks.len() && 0 <= survivor < tracks.len()
            && loser != rival && converged(tracks[loser], tracks[rival])
            && tracks[loser].snr.code <= tracks[rival].snr.code <= tracks[survivor].snr.code
            && merged(tracks)[at].track_id == tracks[loser].id && merged(tracks)[at].kind == (
        ClosureKind::Bookkeeping { survivor_track_id: Some(tracks[survivor].id) }) && !ended(
            merged(tracks),
            tracks[survivor].id,
        );
    lemma_open_tracks_remain(tracks, merged(tracks), survivor);
}

proof fn lemma_open_tracks_remain(tracks: Seq<TrackModel>, closures: Seq<Closure>, i: int)
    requires
        0 <= i < tracks.len(),
        !ended(closures, tracks[i].id),
    ensures
        known(remaining(tracks, closures), tracks[i].id),
    decreases tracks.len(),
{
    let rest = tracks.drop_last();
    let all = remaining(tracks, closures);
    if i < rest.len() {
        lemma_open_tracks_remain(rest, closures, i);
        let inner = remaining(rest, closures);
        let j = choose|j: int| 0 <= j < inner.len() && (#[trigger] inner[j]).id == tracks[i].id;
        assert(all[j] == inner[j]);
    } else {
        assert(all[all.len() - 1].id == tracks[i].id);
    }
}

proof fn lemma_weakest(tracks: Seq<TrackModel>)
    requires
        tracks.len() > 0,
    ensures
        0 <= weakest(tracks) < tracks.len(),
        forall|i: int|
            0 <= i < tracks.len() ==> tracks[weakest(tracks)].snr.code <= (
            #[trigger] tracks[i]).snr.code,
        forall|i: int|
            0 <= i < weakest(tracks) ==> tracks[weakest(tracks)].snr.code < (
            #[trigger] tracks[i]).snr.code,
    decreases tracks.len(),
{
    if tracks.len() > 1 {
        let rest = tracks.drop_last();
        lemma_weakest(rest);
        let w = weakest(rest);
        assert(rest[w] == tracks[w]);
        assert forall|i: int| 0 <= i < rest.len() implies tracks[w].snr.code <= (
        #[trigger] tracks[i]).snr.code by {
            assert(rest[i] == tracks[i]);
        }
        assert forall|i: int| 0 <= i < w implies tracks[w].snr.code < (
        #[trigger] tracks[i]).snr.code by {
            assert(rest[i] == tracks[i]);
        }
    }
}

/// Some track of the list that was at most as strong as every one in `kept` is the one that
/// the closure ends.
pub open spec fn weaker_than_all(tracks: Seq<TrackModel>, kept: Seq<TrackModel>, id: u32) -> bool {
    exists|i: int|
        0 <= i < tracks.len() && (#[trigger] tracks[i]).id == id && forall|j: int|
            0 <= j < kept.len() ==> tracks[i].snr.code <= (#[trigger] kept[j]).snr.code
}

proof fn lemma_within_cap(
    tracks: Seq<TrackModel>,
    cap: nat,
    closures: Seq<Closure>,
    n: nat,
    hops: nat,
    next_id: u32,
)
    requires
        tracks_wf(tracks, n, hops, next_id),
    ensures
        ({
            let (kept, all) = within_cap(tracks, cap, closures);
            &&& kept.len() <= cap || kept.len() == 0
            &&& tracks_wf(kept, n, hops, next_id)
            &&& closures.is_prefix_of(all)
            &&& kept.len() + all.len() == tracks.len() + closures.len()
            &&& forall|j: int| 0 <= j < kept.len() ==> tracks.contains(#[trigger] kept[j])
            &&& forall|c: int|
                closures.len() <= c < all.len() ==> {
                    &&& weaker_than_all(tracks, kept, (#[trigger] all[c]).track_id)
                    &&& !known(kept, all[c].track_id)
                    &&& !all[c].forced
                    &&& all[c].kind == (ClosureKind::Bookkeeping { survivor_track_id: None })
                }
        }),
    decreases tracks.len(),
{
    if tracks.len() > cap {
        lemma_weakest(tracks);
        let w = weakest(tracks);
        let rest = tracks.remove(w);
        let more = closures.push(crate::manager::eviction(tracks[w]));
        crate::manager::lemma_remove_keeps_order(tracks, w, n, hops, next_id);
        lemma_within_cap(rest, cap, more, n, hops, next_id);
        let (kept, all) = within_cap(tracks, cap, closures);
        assert forall|i: int| 0 <= i < rest.len() implies tracks.contains(#[trigger] rest[i]) by {
            assert(rest[i] == tracks[if i < w { i } else { i + 1 }]);
        }
        assert forall|j: int| 0 <= j < kept.len() implies tracks.contains(#[trigger] kept[j]) by {
            assert(rest.contains(kept[j]));
            let i = choose|i: int| 0 <= i < rest.len() && rest[i] == kept[j];
            assert(tracks.contains(rest[i]));
        }
        assert(closures =~= more.subrange(0, closures.len() as int));
        assert(closures =~= all.subrange(0, closures.len() as int));
        assert(all[closures.len() as int] == more[closures.len() as int]);
        assert forall|c: int| closures.len() <= c < all.len() implies {
            &&& weaker_than_all(tracks, kept, (#[trigger] all[c]).track_id)
            &&& !known(kept, all[c].track_id)
            &&& !all[c].forced
            &&& all[c].kind == (ClosureKind::Bookkeeping { survivor_track_id: None })
        } by {
            if c == closures.len() {
                assert forall|j: int| 0 <= j < kept.len() implies tracks[w].snr.code <= (
                #[trigger] kept[j]).snr.code by {
                    assert(tracks.contains(kept[j]));
                }
                assert(weaker_than_all(tracks, kept, tracks[w].id));
                if known(kept, tracks[w].id) {
                    let j = choose|j: int| 0 <= j < kept.len() && (#[trigger] kept[j]).id
                        == tracks[w].id;
                    assert(rest.contains(kept[j]));
                    let i = choose|i: int| 0 <= i < rest.len() && rest[i] == kept[j];
                    let o = if i < w { i } else { i + 1 };
                    assert(rest[i] == tracks[o]);
                    if o < w {
                        assert(tracks[o].id < tracks[w].id);
                    } else {
                        assert(tracks[w].id < tracks[o].id);
                    }
                }
            } else {
                assert(weaker_than_all(rest, kept, all[c].track_id));
                let i = choose|i: int|
                    0 <= i < rest.len() && (#[trigger] rest[i]).id == all[c].track_id && forall|j: int|
                        0 <= j < kept.len() ==> rest[i].snr.code <= (#[trigger] kept[j]).snr.code;
                assert(rest[i] == tracks[if i < w { i } else { i + 1 }]);
                assert(tracks[if i < w { i } else { i + 1 }].id == all[c].track_id);
            }
        }
    } else {
        assert(closures =~= closures.subrange(0, closures.len() as int));
    }
}

proof fn lemma_moved_is_placed(t: TrackModel, hop: HopObservation, n: nat, hops: nat)
    requires
        t.wf(n, hops),
        hop.covers(n),
        !(t.event(hop, n) is Closed),
    ensures
        t.moved(hop, n).wf(n, hops + 1),
        forall|refine: bool| #[trigger] t.moved(hop, n).fed(refine).wf(n, hops + 1),
        t.channel(hop, n) < n,
{
    let k = t.channel(hop, n);
    let c = crate::track::nearest_channel(t.center);
    vstd::arithmetic::div_mod::lemma_mod_bound(c - 1, n as int);
    vstd::arithmetic::div_mod::lemma_mod_bound(c, n as int);
    vstd::arithmetic::div_mod::lemma_mod_bound(c + 1, n as int);
    crate::track::lemma_following_stays_in_band(t.center, k, hop.peak@[k], n);
}

proof fn lemma_drive_all_keeps_order(
    tracks: Seq<TrackModel>,
    hop: HopObservation,
    sample_ts: u64,
    refine: bool,
    until: nat,
    start: DrivenModel,
    hops: nat,
    next_id: u32,
)
    requires
        start.kept.len() == 0,
        tracks_wf(tracks, start.cooldown.len(), hops, next_id),
        hop.covers(start.cooldown.len()),
    ensures
        ({
            let done = drive_all(tracks, hop, sample_ts, refine, until, start);
            &&& tracks_wf(done.kept, start.cooldown.len(), hops + 1, next_id)
            &&& forall|i: int| 0 <= i < done.kept.len() ==> known(tracks, (#[trigger] done.kept[i]).id)
        }),
    decreases tracks.len(),
{
    if tracks.len() > 0 {
        let n = start.cooldown.len();
        let rest = tracks.drop_last();
        let track = tracks.last();
        assert(tracks[tracks.len() - 1].wf(n, hops));
        assert(tracks_wf(rest, n, hops, next_id)) by {
            assert forall|i: int| 0 <= i < rest.len() implies (#[trigger] rest[i]).wf(n, hops) && 0
                < rest[i].id < next_id by {
                assert(rest[i] == tracks[i]);
            }
            assert forall|i: int, j: int| 0 <= i < j < rest.len() implies (#[trigger] rest[i]).id < (
            #[trigger] rest[j]).id by {
                assert(rest[i] == tracks[i] && rest[j] == tracks[j]);
            }
        }
        lemma_drive_all_keeps_order(rest, hop, sample_ts, refine, until, start, hops, next_id);
        let inner = drive_all(rest, hop, sample_ts, refine, until, start);
        let done = drive_all(tracks, hop, sample_ts, refine, until, start);
        assert forall|i: int| 0 <= i < inner.kept.len() implies known(
            tracks,
            (#[trigger] inner.kept[i]).id,
        ) && inner.kept[i].id < track.id by {
            assert(known(rest, inner.kept[i].id));
            let j = choose|j: int| 0 <= j < rest.len() && (#[trigger] rest[j]).id == inner.kept[i].id;
            assert(tracks[j].id == inner.kept[i].id);
            assert(tracks[j].id < tracks[tracks.len() - 1].id);
        }
        assert(known(tracks, track.id)) by {
            assert(tracks[tracks.len() - 1].id == track.id);
        }
        if !(track.event(hop, n) is Closed) {
            lemma_moved_is_placed(track, hop, n, hops);
            let new = done.kept.last();
            assert(new.id == track.id && new.wf(n, hops + 1));
            assert forall|i: int| 0 <= i < done.kept.len() implies (#[trigger] done.kept[i]).wf(
                n,
                hops + 1,
            ) && 0 < done.kept[i].id < next_id && known(tracks, done.kept[i].id) by {
                if i < inner.kept.len() {
                    assert(done.kept[i] == inner.kept[i]);
                } else {
                    assert(0 < tracks[tracks.len() - 1].id < next_id);
                }
            }
            assert forall|i: int, j: int| 0 <= i < j < done.kept.len() implies (
            #[trigger] done.kept[i]).id < (#[trigger] done.kept[j]).id by {
                assert(done.kept[i] == inner.kept[i]);
                if j < inner.kept.len() {
                    assert(done.kept[j] == inner.kept[j]);
                }
            }
        }
    }
}

proof fn lemma_spawn_keeps_order(
    tracks: Seq<TrackModel>,
    next_id: u32,
    hop: HopObservation,
    cooldown: Seq<nat>,
    now: nat,
    cfg: crate::lifecycle::DetectorConfig,
    k: int,
    hops: nat,
)
    requires
        0 <= k,
        0 < next_id,
        tracks_wf(tracks, cooldown.len(), hops, next_id),
        next_id + cooldown.len() - k <= u32::MAX,
    ensures
        ({
            let all = spawn_from(tracks, next_id, hop, cooldown, now, cfg, k);
            let after = next_id + all.len() - tracks.len();
            &&& tracks.is_prefix_of(all)
            &&& next_id <= after <= u32::MAX
            &&& tracks_wf(all, cooldown.len(), hops, after as u32)
            &&& forall|i: int| tracks.len() <= i < all.len() ==> (#[trigger] all[i]).id >= next_id
        }),
    decreases cooldown.len() - k,
{
    let n = cooldown.len();
    if k >= n {
        assert(tracks =~= tracks.subrange(0, tracks.len() as int));
    } else if !eligible(tracks, hop, cooldown, now, k) {
        lemma_spawn_keeps_order(tracks, next_id, hop, cooldown, now, cfg, k + 1, hops);
    } else {
        let both = eligible(tracks, hop, cooldown, now, k + 1);
        let winner = if both && hop.power@[k + 1].code > hop.power@[k].code {
            k + 1
        } else {
            k
        };
        let t = TrackModel::born(next_id, winner, cfg, hop.snr@[winner]);
        let more = tracks.push(t);
        let next = (next_id + 1) as u32;
        assert(t.wf(n, hops)) by {
            assert(winner * crate::track::CHANNEL <= (n - 1) * crate::track::CHANNEL)
                by (nonlinear_arith)
                requires
                    winner <= n - 1,
                    crate::track::CHANNEL > 0,
            ;
            assert(0 <= winner * crate::track::CHANNEL) by (nonlinear_arith)
                requires
                    0 <= winner,
                    crate::track::CHANNEL > 0,
            ;
        }
        assert(tracks_wf(more, n, hops, next)) by {
            assert forall|i: int| 0 <= i < more.len() implies (#[trigger] more[i]).wf(n, hops) && 0
                < more[i].id < next by {
                if i < tracks.len() {
                    assert(more[i] == tracks[i]);
                }
            }
            assert forall|i: int, j: int| 0 <= i < j < more.len() implies (#[trigger] more[i]).id < (
            #[trigger] more[j]).id by {
                assert(more[i] == tracks[i]);
                if j < tracks.len() {
                    assert(more[j] == tracks[j]);
                }
            }
        }
        let step = if both { k + 2 } else { k + 1 };
        lemma_spawn_keeps_order(more, next, hop, cooldown, now, cfg, step, hops);
        let all = spawn_from(tracks, next_id, hop, cooldown, now, cfg, k);
        assert(tracks =~= more.subrange(0, tracks.len() as int));
        assert(tracks =~= all.subrange(0, tracks.len() as int));
        assert(all[tracks.len() as int] == more[tracks.len() as int]);
    }
}

proof fn lemma_populated(m: ManagerModel, hop: HopObservation, sample_ts: u64, refine: bool)
    requires
        m.wf(),
        m.has_room(),
        hop.covers(m.n()),
    ensures
        ({
            let driven = m.driven(hop, sample_ts, refine);
            let populated = m.populated(hop, sample_ts, refine);
            let next = m.next_id + populated.len() - driven.kept.len();
            &&& m.next_id <= next <= u32::MAX
            &&& tracks_wf(populated, m.n(), m.hop_counter + 1, next as u32)
            &&& driven.kept.is_prefix_of(populated)
            &&& forall|i: int|
                driven.kept.len() <= i < populated.len() ==> (#[trigger] populated[i]).id >= m.next_id
        }),
{
    lemma_driven(m, hop, sample_ts, refine);
    let driven = m.driven(hop, sample_ts, refine);
    let start = DrivenModel {
        kept: Seq::empty(),
        outcome: crate::manager::OutcomeModel {
            feeds: Seq::empty(),
            promoted: Seq::empty(),
            closures: Seq::empty(),
        },
        counts: m.counts,
        cooldown: crate::manager::freed(m.cooldown, hop.rise@),
    };
    lemma_drive_all_keeps_order(
        m.tracks,
        hop,
        sample_ts,
        refine,
        m.hop_counter + 1 + m.cfg.silent_respawn_cooldown_hops as nat,
        start,
        m.hop_counter,
        m.next_id,
    );
    assert(driven.kept =~= driven.kept.subrange(0, driven.kept.len() as int));
    lemma_spawn_keeps_order(
        driven.kept,
        m.next_id,
        hop,
        driven.cooldown,
        m.hop_counter + 1,
        m.cfg,
        0,
        m.hop_counter + 1,
    );
}

/// Whatever a hop brings, no more tracks than the cap are open after it, and every track
/// that was given up for that was at most as strong as each one that stays.
pub proof fn law_the_cap_holds_and_spares_the_strong(
    m: ManagerModel,
    hop: HopObservation,
    sample_ts: u64,
    refine: bool,
)
    requires
        m.wf(),
        m.has_room(),
        hop.covers(m.n()),
    ensures
        ({
            let populated = m.populated(hop, sample_ts, refine);
            let unmerged = remaining(populated, merged(populated));
            let (kept, evicted) = within_cap(unmerged, m.cfg.track_cap as nat, Seq::empty());
            &&& m.stepped(hop, sample_ts, refine).tracks == kept
            &&& kept.len() <= m.cfg.track_cap
            &&& forall|c: int|
                0 <= c < evicted.len() ==> weaker_than_all(
                    unmerged,
                    kept,
                    (#[trigger] evicted[c]).track_id,
                )
        }),
{
    lemma_populated(m, hop, sample_ts, refine);
    let populated = m.populated(hop, sample_ts, refine);
    let next = (m.next_id + populated.len() - m.driven(hop, sample_ts, refine).kept.len()) as u32;
    crate::manager::lemma_merging(populated, m.n(), m.hop_counter + 1, next);
    lemma_within_cap(
        remaining(populated, merged(populated)),
        m.cfg.track_cap as nat,
        Seq::empty(),
        m.n(),
        m.hop_counter + 1,
        next,
    );
}

/// After a hop no two open tracks are less than a channel apart.
pub proof fn law_open_tracks_are_apart(
    m: ManagerModel,
    hop: HopObservation,
    sample_ts: u64,
    refine: bool,
    a: int,
    b: int,
)
    requires
        m.wf(),
        m.has_room(),
        hop.covers(m.n()),
        0 <= a < m.stepped(hop, sample_ts, refine).tracks.len(),
        0 <= b < m.stepped(hop, sample_ts, refine).tracks.len(),
        a != b,
    ensures
        !converged(
            m.stepped(hop, sample_ts, refine).tracks[a],
            m.stepped(hop, sample_ts, refine).tracks[b],
        ),
        ({
            let (t, u) = (
                m.stepped(hop, sample_ts, refine).tracks[a],
                m.stepped(hop, sample_ts, refine).tracks[b],
            );
            t.center - u.center >= crate::track::CHANNEL || u.center - t.center
                >= crate::track::CHANNEL
        }),
{
    lemma_populated(m, hop, sample_ts, refine);
    let populated = m.populated(hop, sample_ts, refine);
    let next = (m.next_id + populated.len() - m.driven(hop, sample_ts, refine).kept.len()) as u32;
    crate::manager::lemma_merging(populated, m.n(), m.hop_counter + 1, next);
    let unmerged = remaining(populated, merged(populated));
    lemma_within_cap(
        unmerged,
        m.cfg.track_cap as nat,
        Seq::empty(),
        m.n(),
        m.hop_counter + 1,
        next,
    );
    let kept = m.stepped(hop, sample_ts, refine).tracks;
    assert(unmerged.contains(kept[a]) && unmerged.contains(kept[b]));
    let ua = choose|i: int| 0 <= i < unmerged.len() && unmerged[i] == kept[a];
    let ub = choose|i: int| 0 <= i < unmerged.len() && unmerged[i] == kept[b];
    assert(populated.contains(unmerged[ua]) && populated.contains(unmerged[ub]));
    let pa = choose|i: int| 0 <= i < populated.len() && populated[i] == kept[a];
    let pb = choose|i: int| 0 <= i < populated.len() && populated[i] == kept[b];
    if a < b {
        assert(kept[a].id < kept[b].id);
    } else {
        assert(kept[b].id < kept[a].id);
    }
    assert(pa != pb);
    crate::manager::lemma_merged_ends_the_paired(populated, kept[a].id);
    crate::manager::lemma_merged_ends_the_paired(populated, kept[b].id);
    if pa < pb {
        lemma_merge_separates(populated, 0, 1, Seq::empty(), pa, pb);
    } else {
        lemma_merge_separates(populated, 0, 1, Seq::empty(), pb, pa);
        assert(!converged(kept[b], kept[a]));
    }
}

/// Every track that was born is open, or counted among the closed, exactly once: a hop adds
/// as many open and closed tracks together as it gives birth to, and hands out as many
/// identities.
pub proof fn law_tracks_are_conserved(
    m: ManagerModel,
    hop: HopObservation,
    sample_ts: u64,
    refine: bool,
)
    requires
        m.wf(),
        m.has_room(),
        hop.covers(m.n()),
    ensures
        ({
            let then = m.stepped(hop, sample_ts, refine);
            let closures = m.outcome(hop, sample_ts, refine).closures;
            &&& then.wf()
            &&& then.counts.total() == m.counts.total() + closures.len()
            &&& then.counts.total() + then.tracks.len() - then.next_id == m.counts.total()
                + m.tracks.len() - m.next_id
        }),
{
    lemma_driven(m, hop, sample_ts, refine);
    lemma_populated(m, hop, sample_ts, refine);
    let driven = m.driven(hop, sample_ts, refine);
    let populated = m.populated(hop, sample_ts, refine);
    let next = (m.next_id + populated.len() - driven.kept.len()) as u32;
    crate::manager::lemma_merging(populated, m.n(), m.hop_counter + 1, next);
    let unmerged = remaining(populated, merged(populated));
    lemma_within_cap(
        unmerged,
        m.cfg.track_cap as nat,
        Seq::empty(),
        m.n(),
        m.hop_counter + 1,
        next,
    );
    let then = m.stepped(hop, sample_ts, refine);
    assert forall|k: int| 0 <= k < then.n() implies (#[trigger] then.cooldown[k]) <= u64::MAX by {
        assert(m.cooldown[k] <= u64::MAX);
    }
}

/// A track that a hop closes is not open after it, and its decoder is forced to resolve
/// what it has begun if and only if its signal was seen to end.
pub proof fn law_closed_tracks_are_gone(
    m: ManagerModel,
    hop: HopObservation,
    sample_ts: u64,
    refine: bool,
    at: int,
)
    requires
        m.wf(),
        m.has_room(),
        hop.covers(m.n()),
        0 <= at < m.outcome(hop, sample_ts, refine).closures.len(),
    ensures
        ({
            let c = m.outcome(hop, sample_ts, refine).closures[at];
            &&& !known(m.stepped(hop, sample_ts, refine).tracks, c.track_id)
            &&& c.forced <==> c.kind == ClosureKind::SignalEnded
        }),
{
    lemma_driven(m, hop, sample_ts, refine);
    lemma_populated(m, hop, sample_ts, refine);
    let driven = m.driven(hop, sample_ts, refine);
    let populated = m.populated(hop, sample_ts, refine);
    let next = (m.next_id + populated.len() - driven.kept.len()) as u32;
    crate::manager::lemma_merging(populated, m.n(), m.hop_counter + 1, next);
    let unmerged = remaining(populated, merged(populated));
    lemma_within_cap(
        unmerged,
        m.cfg.track_cap as nat,
        Seq::empty(),
        m.n(),
        m.hop_counter + 1,
        next,
    );
    let kept = m.stepped(hop, sample_ts, refine).tracks;
    let evicted = within_cap(unmerged, m.cfg.track_cap as nat, Seq::empty()).1;
    let closures = m.outcome(hop, sample_ts, refine).closures;
    let c = closures[at];
    let first = driven.outcome.closures.len();
    let second = first + merged(populated).len();
    if at < first {
        assert(c == driven.outcome.closures[at]);
    } else if at < second {
        assert(c == merged(populated)[at - first]);
        lemma_merges_are_not_forced(populated, at - first);
    } else {
        assert(c == evicted[at - second]);
    }
    if known(kept, c.track_id) {
        let j = choose|j: int| 0 <= j < kept.len() && (#[trigger] kept[j]).id == c.track_id;
        assert(unmerged.contains(kept[j]));
        let u = choose|i: int| 0 <= i < unmerged.len() && unmerged[i] == kept[j];
        assert(!ended(merged(populated), unmerged[u].id));
        assert(populated.contains(unmerged[u]));
        let p = choose|i: int| 0 <= i < populated.len() && populated[i] == kept[j];
        if at < first {
            assert(known(m.tracks, c.track_id));
            let t = choose|i: int| 0 <= i < m.tracks.len() && (#[trigger] m.tracks[i]).id
                == c.track_id;
            if p < driven.kept.len() {
                assert(populated[p] == driven.kept[p]);
                assert(!ended(driven.outcome.closures, driven.kept[p].id));
            } else {
                assert(populated[p].id >= m.next_id);
                assert(m.tracks[t].id < m.next_id);
            }
        } else if at < second {
            assert(merged(populated)[at - first].track_id == c.track_id);
        }
    }
}

/// One call of the manager in the course of a run.
pub ghost enum ManagerCall {
    /// A hop.
    Hop(HopObservation, u64, bool),
    /// The end of a batch in which the decoders reported these events.
    Batch(Seq<DecoderEvent>),
}

/// The manager after such a call.
pub open spec fn after_call(m: ManagerModel, call: ManagerCall) -> ManagerModel {
    match call {
        ManagerCall::Hop(hop, sample_ts, refine) => m.stepped(hop, sample_ts, refine),
        ManagerCall::Batch(pool) => ManagerModel { tracks: noted(m.tracks, pool), ..m },
    }
}

/// The manager after such calls.
pub open spec fn after_calls(m: ManagerModel, calls: Seq<ManagerCall>) -> ManagerModel
    decreases calls.len(),
{
    if calls.len() == 0 {
        m
    } else {
        after_call(after_calls(m, calls.drop_last()), calls.last())
    }
}

/// Every hop covers the band and finds room in the machine's counters.
pub open spec fn calls_fit(m: ManagerModel, calls: Seq<ManagerCall>) -> bool
    decreases calls.len(),
{
    if calls.len() == 0 {
        true
    } else {
        let before = after_calls(m, calls.drop_last());
        &&& calls_fit(m, calls.drop_last())
        &&& calls.last() matches ManagerCall::Hop(hop, _, _) ==> before.has_room() && hop.covers(
            before.n(),
        )
    }
}

/// How many of the calls are hops.
pub open spec fn hop_count(calls: Seq<ManagerCall>) -> nat
    decreases calls.len(),
{
    if calls.len() == 0 {
        0
    } else {
        hop_count(calls.drop_last()) + if calls.last() is Hop {
            1nat
        } else {
            0nat
        }
    }
}

/// After every call of a run, whatever it brought: no more tracks than the cap are open, any
/// two of them are a channel or more apart, and as long as the warm-up lasts none is open and
/// the next hop of it confirms none.
pub proof fn law_a_run_stays_in_order(n: nat, cfg: DetectorConfig, calls: Seq<ManagerCall>)
    requires
        n <= crate::track::MAX_CHANNELS,
        calls_fit(ManagerModel::fresh(n, cfg), calls),
    ensures
        ({
            let then = after_calls(ManagerModel::fresh(n, cfg), calls);
            &&& then.wf()
            &&& then.n() == n && then.cfg == cfg
            &&& then.hop_counter == hop_count(calls)
            &&& then.tracks.len() <= cfg.track_cap
            &&& forall|a: int, b: int|
                0 <= a < b < then.tracks.len() ==> !#[trigger] converged(
                    then.tracks[a],
                    then.tracks[b],
                )
            &&& hop_count(calls) <= cfg.warmup_hops ==> then.tracks.len() == 0
            &&& hop_count(calls) < cfg.warmup_hops ==> forall|hop: HopObservation, ts: u64, refine: bool|
                (#[trigger] then.outcome(hop, ts, refine)).promoted.len() == 0
        }),
    decreases calls.len(),
{
    let fresh = ManagerModel::fresh(n, cfg);
    let then = after_calls(fresh, calls);
    if calls.len() > 0 {
        let front = calls.drop_last();
        law_a_run_stays_in_order(n, cfg, front);
        let m = after_calls(fresh, front);
        match calls.last() {
            ManagerCall::Hop(hop, sample_ts, refine) => {
                law_tracks_are_conserved(m, hop, sample_ts, refine);
                law_the_cap_holds_and_spares_the_strong(m, hop, sample_ts, refine);
                lemma_driven(m, hop, sample_ts, refine);
                assert forall|a: int, b: int| 0 <= a < b < then.tracks.len() implies !#[trigger] converged(
                    then.tracks[a],
                    then.tracks[b],
                ) by {
                    law_open_tracks_are_apart(m, hop, sample_ts, refine, a, b);
                }
                if hop_count(calls) <= cfg.warmup_hops {
                    let populated = m.populated(hop, sample_ts, refine);
                    assert(m.tracks =~= Seq::<TrackModel>::empty());
                    assert(m.driven(hop, sample_ts, refine).kept.len() == 0);
                    assert(populated.len() == 0);
                    lemma_populated(m, hop, sample_ts, refine);
                    crate::manager::lemma_merging(
                        populated,
                        m.n(),
                        m.hop_counter + 1,
                        m.next_id,
                    );
                }
            },
            ManagerCall::Batch(pool) => {
                lemma_noting_keeps_order(m, pool);
                assert forall|a: int, b: int| 0 <= a < b < then.tracks.len() implies !#[trigger] converged(
                    then.tracks[a],
                    then.tracks[b],
                ) by {
                    assert(!converged(m.tracks[a], m.tracks[b]));
                }
            },
        }
    }
    if hop_count(calls) < cfg.warmup_hops {
        assert forall|hop: HopObservation, ts: u64, refine: bool| (#[trigger] then.outcome(
            hop,
            ts,
            refine,
        )).promoted.len() == 0 by {
            assert(then.tracks =~= Seq::<TrackModel>::empty());
        }
    }
}

proof fn lemma_noting_keeps_order(m: ManagerModel, pool: Seq<DecoderEvent>)
    requires
        m.wf(),
    ensures
        after_call(m, ManagerCall::Batch(pool)).wf(),
{
    let then = after_call(m, ManagerCall::Batch(pool));
    assert forall|i: int| 0 <= i < then.tracks.len() implies (#[trigger] then.tracks[i]).wf(
        then.n(),
        then.hop_counter,
    ) && 0 < then.tracks[i].id < then.next_id by {
        assert(m.tracks[i].wf(m.n(), m.hop_counter));
    }
    assert forall|i: int, j: int| 0 <= i < j < then.tracks.len() implies (
    #[trigger] then.tracks[i]).id < (#[trigger] then.tracks[j]).id by {
        assert(m.tracks[i].id < m.tracks[j].id);
    }
}

/// What a decoder is fed does not depend on when the decoders' reports are noted, nor on what
/// they report: noting decides only when the track closes for silence.
pub proof fn law_reports_do_not_change_the_feed(
    tracks: Seq<TrackModel>,
    pool: Seq<DecoderEvent>,
    i: int,
    hop: HopObservation,
    n: nat,
    sample_ts: u64,
    refine: bool,
    leased: bool,
)
    requires
        0 <= i < tracks.len(),
    ensures
        ({
            let (t, u) = (tracks[i], noted(tracks, pool)[i]);
            let k = t.channel(hop, n);
            &&& u.channel(hop, n) == k
            &&& u.moved(hop, n).feed(k, n, sample_ts, refine, leased) == t.moved(hop, n).feed(
                k,
                n,
                sample_ts,
                refine,
                leased,
            )
            &&& !t.life.falls_silent(false) && !u.life.falls_silent(false) ==> u.event(hop, n)
                == t.event(hop, n)
        }),
{
}

/// A track without what only the decoders' reports decide: whether it ever reported, and how
/// long it has been silent.
pub open spec fn bare(t: TrackModel) -> TrackModel {
    TrackModel {
        has_emitted: false,
        life: LifecycleModel { silent_count: 0, ..t.life },
        ..t
    }
}

/// Tracks without what only the decoders' reports decide.
pub open spec fn bares(tracks: Seq<TrackModel>) -> Seq<TrackModel> {
    Seq::new(tracks.len(), |i: int| bare(tracks[i]))
}

/// Two managers that differ in nothing but what the decoders' reports decide.
pub open spec fn alike(a: ManagerModel, b: ManagerModel) -> bool {
    &&& bares(a.tracks) == bares(b.tracks)
    &&& b == (ManagerModel { tracks: b.tracks, ..a })
}

/// No track closes for silence on the next hop.
pub open spec fn none_falls_silent(m: ManagerModel) -> bool {
    forall|i: int|
        0 <= i < m.tracks.len() ==> !(#[trigger] m.tracks[i]).life.falls_silent(false)
}

proof fn lemma_bares_len(a: Seq<TrackModel>, b: Seq<TrackModel>)
    requires
        bares(a) == bares(b),
    ensures
        a.len() == b.len(),
{
    assert(bares(a).len() == a.len());
    assert(bares(b).len() == b.len());
}

proof fn lemma_bares_drop_last(a: Seq<TrackModel>, b: Seq<TrackModel>)
    requires
        bares(a) == bares(b),
        a.len() > 0,
    ensures
        a.len() == b.len(),
        bares(a.drop_last()) == bares(b.drop_last()),
        bare(a.last()) == bare(b.last()),
{
    lemma_bares_len(a, b);
    assert(bares(a.drop_last()) =~= bares(a).drop_last());
    assert(bares(b.drop_last()) =~= bares(b).drop_last());
    assert(bares(a)[a.len() - 1] == bare(a.last()));
    assert(bares(b)[b.len() - 1] == bare(b.last()));
}

proof fn lemma_bares_push(a: Seq<TrackModel>, b: Seq<TrackModel>, x: TrackModel, y: TrackModel)
    requires
        bares(a) == bares(b),
        bare(x) == bare(y),
    ensures
        bares(a.push(x)) == bares(b.push(y)),
{
    assert(bares(a.push(x)) =~= bares(a).push(bare(x)));
    assert(bares(b.push(y)) =~= bares(b).push(bare(y)));
}

proof fn lemma_bares_at(a: Seq<TrackModel>, b: Seq<TrackModel>, i: int)
    requires
        bares(a) == bares(b),
        0 <= i < a.len(),
    ensures
        a.len() == b.len(),
        bare(a[i]) == bare(b[i]),
{
    lemma_bares_len(a, b);
    assert(bares(a)[i] == bare(a[i]));
    assert(bares(b)[i] == bare(b[i]));
}

proof fn lemma_driven_alike(
    a: Seq<TrackModel>,
    b: Seq<TrackModel>,
    hop: HopObservation,
    sample_ts: u64,
    refine: bool,
    until: nat,
    start: DrivenModel,
)
    requires
        bares(a) == bares(b),
        forall|i: int| 0 <= i < a.len() ==> !(#[trigger] a[i]).life.falls_silent(false),
        forall|i: int| 0 <= i < b.len() ==> !(#[trigger] b[i]).life.falls_silent(false),
    ensures
        ({
            let x = drive_all(a, hop, sample_ts, refine, until, start);
            let y = drive_all(b, hop, sample_ts, refine, until, start);
            &&& bares(x.kept) == bares(y.kept)
            &&& x.outcome.feeds == y.outcome.feeds
            &&& x.outcome.promoted == y.outcome.promoted
            &&& x.counts == y.counts
            &&& x.cooldown == y.cooldown
        }),
    decreases a.len(),
{
    lemma_bares_len(a, b);
    if a.len() > 0 {
        lemma_bares_drop_last(a, b);
        let (ra, rb) = (a.drop_last(), b.drop_last());
        assert forall|i: int| 0 <= i < ra.len() implies !(#[trigger] ra[i]).life.falls_silent(
            false,
        ) by {
            assert(ra[i] == a[i]);
        }
        assert forall|i: int| 0 <= i < rb.len() implies !(#[trigger] rb[i]).life.falls_silent(
            false,
        ) by {
            assert(rb[i] == b[i]);
        }
        lemma_driven_alike(ra, rb, hop, sample_ts, refine, until, start);
        let n = start.cooldown.len();
        let (t, u) = (a.last(), b.last());
        assert(!a[a.len() - 1].life.falls_silent(false));
        assert(!b[b.len() - 1].life.falls_silent(false));
        assert(bare(t) == bare(u));
        assert(t.channel(hop, n) == u.channel(hop, n));
        assert(t.event(hop, n) == u.event(hop, n));
        assert(bare(t.moved(hop, n)) == bare(u.moved(hop, n)));
        let x = drive_all(ra, hop, sample_ts, refine, until, start);
        let y = drive_all(rb, hop, sample_ts, refine, until, start);
        let (mt, mu) = (t.moved(hop, n), u.moved(hop, n));
        lemma_bares_push(x.kept, y.kept, mt, mu);
        lemma_bares_push(x.kept, y.kept, mt.fed(refine), mu.fed(refine));
    }
}

proof fn lemma_owner_alike(a: Seq<TrackModel>, b: Seq<TrackModel>, n: nat, channel: int)
    requires
        bares(a) == bares(b),
    ensures
        owner(a, n, channel) == owner(b, n, channel),
    decreases a.len(),
{
    lemma_bares_len(a, b);
    if a.len() > 0 {
        lemma_bares_drop_last(a, b);
        lemma_owner_alike(a.drop_last(), b.drop_last(), n, channel);
        assert(bare(a.last()).center == bare(b.last()).center);
    }
}

proof fn lemma_spawn_alike(
    a: Seq<TrackModel>,
    b: Seq<TrackModel>,
    next_id: u32,
    hop: HopObservation,
    cooldown: Seq<nat>,
    now: nat,
    cfg: DetectorConfig,
    k: int,
)
    requires
        bares(a) == bares(b),
    ensures
        bares(spawn_from(a, next_id, hop, cooldown, now, cfg, k)) == bares(
            spawn_from(b, next_id, hop, cooldown, now, cfg, k),
        ),
    decreases cooldown.len() - k,
{
    if k < cooldown.len() {
        lemma_owner_alike(a, b, cooldown.len(), k);
        lemma_owner_alike(a, b, cooldown.len(), k + 1);
        if !eligible(a, hop, cooldown, now, k) {
            lemma_spawn_alike(a, b, next_id, hop, cooldown, now, cfg, k + 1);
        } else {
            let both = eligible(a, hop, cooldown, now, k + 1);
            let winner = if both && hop.power@[k + 1].code > hop.power@[k].code {
                k + 1
            } else {
                k
            };
            let t = TrackModel::born(next_id, winner, cfg, hop.snr@[winner]);
            lemma_bares_push(a, b, t, t);
            let step = if both { k + 2 } else { k + 1 };
            lemma_spawn_alike(
                a.push(t),
                b.push(t),
                (next_id + 1) as u32,
                hop,
                cooldown,
                now,
                cfg,
                step,
            );
        }
    }
}

/// The closures end the same tracks in the same order and name the same survivors.
pub open spec fn same_endings(a: Seq<Closure>, b: Seq<Closure>) -> bool {
    &&& a.len() == b.len()
    &&& forall|i: int|
        0 <= i < a.len() ==> (#[trigger] a[i]).track_id == b[i].track_id && a[i].kind == b[i].kind
}

proof fn lemma_ended_alike(a: Seq<Closure>, b: Seq<Closure>, id: u32)
    requires
        same_endings(a, b),
    ensures
        ended(a, id) == ended(b, id),
{
    if ended(a, id) {
        let i = choose|i: int| 0 <= i < a.len() && (#[trigger] a[i]).track_id == id;
        assert(b[i].track_id == id);
    }
    if ended(b, id) {
        let i = choose|i: int| 0 <= i < b.len() && (#[trigger] b[i]).track_id == id;
        assert(a[i].track_id == id);
    }
}

proof fn lemma_merge_alike(
    a: Seq<TrackModel>,
    b: Seq<TrackModel>,
    i: int,
    j: int,
    x: Seq<Closure>,
    y: Seq<Closure>,
)
    requires
        bares(a) == bares(b),
        0 <= i < j,
        same_endings(x, y),
    ensures
        same_endings(merge_from(a, i, j, x), merge_from(b, i, j, y)),
    decreases a.len() - i, a.len() - j,
{
    lemma_bares_len(a, b);
    if i >= a.len() {
    } else if j >= a.len() {
        lemma_merge_alike(a, b, i + 1, i + 2, x, y);
    } else {
        lemma_bares_at(a, b, i);
        lemma_bares_at(a, b, j);
        assert(a[i].id == b[i].id && a[j].id == b[j].id) by {
            assert(bare(a[i]).id == bare(b[i]).id && bare(a[j]).id == bare(b[j]).id);
        }
        assert(converged(a[i], a[j]) == converged(b[i], b[j])) by {
            assert(bare(a[i]).center == bare(b[i]).center);
            assert(bare(a[j]).center == bare(b[j]).center);
        }
        lemma_ended_alike(x, y, a[i].id);
        lemma_ended_alike(x, y, a[j].id);
        if ended(x, a[i].id) || ended(x, a[j].id) || !converged(a[i], a[j]) {
            lemma_merge_alike(a, b, i, j + 1, x, y);
        } else {
            let (c, d) = (merge_closure(a[i], a[j]), merge_closure(b[i], b[j]));
            assert(bare(a[i]).snr == bare(b[i]).snr && bare(a[j]).snr == bare(b[j]).snr);
            assert(c.track_id == d.track_id && c.kind == d.kind);
            let (more, other) = (x.push(c), y.push(d));
            assert(same_endings(more, other)) by {
                assert forall|k: int| 0 <= k < more.len() implies (#[trigger] more[k]).track_id
                    == other[k].track_id && more[k].kind == other[k].kind by {
                    if k < x.len() {
                        assert(x[k].track_id == y[k].track_id);
                    }
                }
            }
            lemma_merge_alike(a, b, i, j + 1, more, other);
        }
    }
}

proof fn lemma_survivor_alike(x: Seq<Closure>, y: Seq<Closure>, id: u32, from: int)
    requires
        same_endings(x, y),
        0 <= from,
    ensures
        final_survivor(x, id, from) == final_survivor(y, id, from),
    decreases x.len() - from,
{
    if from < x.len() {
        assert(x[from].track_id == y[from].track_id && x[from].kind == y[from].kind);
        if x[from].track_id == id {
            lemma_survivor_alike(x, y, named_survivor(x[from]), from + 1);
        } else {
            lemma_survivor_alike(x, y, id, from + 1);
        }
    }
}

proof fn lemma_remaining_alike(
    a: Seq<TrackModel>,
    b: Seq<TrackModel>,
    x: Seq<Closure>,
    y: Seq<Closure>,
)
    requires
        bares(a) == bares(b),
        same_endings(x, y),
    ensures
        bares(remaining(a, x)) == bares(remaining(b, y)),
    decreases a.len(),
{
    lemma_bares_len(a, b);
    if a.len() > 0 {
        lemma_bares_drop_last(a, b);
        lemma_remaining_alike(a.drop_last(), b.drop_last(), x, y);
        assert(bare(a.last()).id == bare(b.last()).id);
        lemma_ended_alike(x, y, a.last().id);
        lemma_bares_push(
            remaining(a.drop_last(), x),
            remaining(b.drop_last(), y),
            a.last(),
            b.last(),
        );
    }
}

proof fn lemma_weakest_alike(a: Seq<TrackModel>, b: Seq<TrackModel>)
    requires
        bares(a) == bares(b),
    ensures
        weakest(a) == weakest(b),
    decreases a.len(),
{
    lemma_bares_len(a, b);
    if a.len() > 1 {
        lemma_bares_drop_last(a, b);
        lemma_weakest_alike(a.drop_last(), b.drop_last());
        lemma_weakest(a.drop_last());
        let w = weakest(a.drop_last());
        lemma_bares_at(a, b, w);
        assert(bare(a[w]).snr == bare(b[w]).snr);
        assert(bare(a.last()).snr == bare(b.last()).snr);
    }
}

proof fn lemma_cap_alike(
    a: Seq<TrackModel>,
    b: Seq<TrackModel>,
    cap: nat,
    x: Seq<Closure>,
    y: Seq<Closure>,
)
    requires
        bares(a) == bares(b),
        x.len() == y.len(),
    ensures
        bares(within_cap(a, cap, x).0) == bares(within_cap(b, cap, y).0),
        within_cap(a, cap, x).1.len() == within_cap(b, cap, y).1.len(),
    decreases a.len(),
{
    lemma_bares_len(a, b);
    if a.len() > cap {
        lemma_weakest_alike(a, b);
        lemma_weakest(a);
        let w = weakest(a);
        assert(bares(a.remove(w)) =~= bares(a).remove(w));
        assert(bares(b.remove(w)) =~= bares(b).remove(w));
        lemma_cap_alike(
            a.remove(w),
            b.remove(w),
            cap,
            x.push(crate::manager::eviction(a[w])),
            y.push(crate::manager::eviction(b[w])),
        );
    }
}

proof fn lemma_hop_alike(
    a: ManagerModel,
    b: ManagerModel,
    hop: HopObservation,
    sample_ts: u64,
    refine: bool,
)
    requires
        alike(a, b),
        none_falls_silent(a),
        none_falls_silent(b),
    ensures
        alike(a.stepped(hop, sample_ts, refine), b.stepped(hop, sample_ts, refine)),
        a.outcome(hop, sample_ts, refine).feeds == b.outcome(hop, sample_ts, refine).feeds,
        a.outcome(hop, sample_ts, refine).promoted == b.outcome(hop, sample_ts, refine).promoted,
{
    let start = DrivenModel {
        kept: Seq::empty(),
        outcome: crate::manager::OutcomeModel {
            feeds: Seq::empty(),
            promoted: Seq::empty(),
            closures: Seq::empty(),
        },
        counts: a.counts,
        cooldown: crate::manager::freed(a.cooldown, hop.rise@),
    };
    lemma_driven_alike(
        a.tracks,
        b.tracks,
        hop,
        sample_ts,
        refine,
        a.hop_counter + 1 + a.cfg.silent_respawn_cooldown_hops as nat,
        start,
    );
    let (x, y) = (a.driven(hop, sample_ts, refine), b.driven(hop, sample_ts, refine));
    lemma_spawn_alike(
        x.kept,
        y.kept,
        a.next_id,
        hop,
        x.cooldown,
        a.hop_counter + 1,
        a.cfg,
        0,
    );
    let (p, q) = (a.populated(hop, sample_ts, refine), b.populated(hop, sample_ts, refine));
    assert(bares(p) == bares(q));
    lemma_merge_alike(p, q, 0, 1, Seq::empty(), Seq::empty());
    let (pp, pq) = (pairings(p), pairings(q));
    let (mp, mq) = (merged(p), merged(q));
    assert(same_endings(mp, mq)) by {
        assert forall|k: int| 0 <= k < mp.len() implies (#[trigger] mp[k]).track_id == mq[k].track_id
            && mp[k].kind == mq[k].kind by {
            assert(pp[k].track_id == pq[k].track_id && pp[k].kind == pq[k].kind);
            lemma_survivor_alike(pp, pq, named_survivor(pp[k]), k + 1);
        }
    }
    lemma_remaining_alike(p, q, mp, mq);
    lemma_cap_alike(
        remaining(p, mp),
        remaining(q, mq),
        a.cfg.track_cap as nat,
        Seq::empty(),
        Seq::empty(),
    );
    lemma_bares_len(p, q);
    lemma_bares_len(x.kept, y.kept);
    let (s, t) = (a.stepped(hop, sample_ts, refine), b.stepped(hop, sample_ts, refine));
    assert(t =~= (ManagerModel { tracks: t.tracks, ..s }));
}

proof fn lemma_batch_alike(m: ManagerModel, pool: Seq<DecoderEvent>)
    ensures
        alike(m, after_call(m, ManagerCall::Batch(pool))),
{
    assert(bares(m.tracks) =~= bares(noted(m.tracks, pool)));
}

/// The hops among the calls.
pub open spec fn hops_of(calls: Seq<ManagerCall>) -> Seq<ManagerCall>
    decreases calls.len(),
{
    if calls.len() == 0 {
        Seq::empty()
    } else if calls.last() is Hop {
        hops_of(calls.drop_last()).push(calls.last())
    } else {
        hops_of(calls.drop_last())
    }
}

/// All that the decoders are fed on the way.
pub open spec fn fed_on_the_way(m: ManagerModel, calls: Seq<ManagerCall>) -> Seq<DecoderFeed>
    decreases calls.len(),
{
    if calls.len() == 0 {
        Seq::empty()
    } else {
        let before = fed_on_the_way(m, calls.drop_last());
        match calls.last() {
            ManagerCall::Hop(hop, sample_ts, refine) => before + after_calls(
                m,
                calls.drop_last(),
            ).outcome(hop, sample_ts, refine).feeds,
            ManagerCall::Batch(_) => before,
        }
    }
}

/// No track closes for silence on the way.
pub open spec fn none_falls_silent_on_the_way(m: ManagerModel, calls: Seq<ManagerCall>) -> bool
    decreases calls.len(),
{
    if calls.len() == 0 {
        true
    } else {
        &&& none_falls_silent_on_the_way(m, calls.drop_last())
        &&& calls.last() is Hop ==> none_falls_silent(after_calls(m, calls.drop_last()))
    }
}

/// The levels that come with the feeds of one track.
pub open spec fn levels_of(feeds: Seq<DecoderFeed>, id: u32) -> Seq<Level>
    decreases feeds.len(),
{
    if feeds.len() == 0 {
        Seq::empty()
    } else if feeds.last().track_id == id {
        levels_of(feeds.drop_last(), id).push(feeds.last().snr)
    } else {
        levels_of(feeds.drop_last(), id)
    }
}

proof fn lemma_cuts_alike(m: ManagerModel, a: Seq<ManagerCall>, b: Seq<ManagerCall>)
    requires
        hops_of(a) == hops_of(b),
        none_falls_silent_on_the_way(m, a),
        none_falls_silent_on_the_way(m, b),
    ensures
        alike(after_calls(m, a), after_calls(m, b)),
        fed_on_the_way(m, a) == fed_on_the_way(m, b),
    decreases a.len() + b.len(),
{
    if a.len() > 0 && a.last() is Batch {
        lemma_cuts_alike(m, a.drop_last(), b);
        lemma_batch_alike(after_calls(m, a.drop_last()), a.last()->Batch_0);
        assert(alike(after_calls(m, a), after_calls(m, b)));
        assert(fed_on_the_way(m, a) == fed_on_the_way(m, a.drop_last()));
    } else if b.len() > 0 && b.last() is Batch {
        lemma_cuts_alike(m, a, b.drop_last());
        lemma_batch_alike(after_calls(m, b.drop_last()), b.last()->Batch_0);
        assert(alike(after_calls(m, a), after_calls(m, b)));
        assert(fed_on_the_way(m, b) == fed_on_the_way(m, b.drop_last()));
    } else if a.len() > 0 && b.len() > 0 {
        let (ra, rb) = (a.drop_last(), b.drop_last());
        assert(hops_of(a) == hops_of(ra).push(a.last()));
        assert(hops_of(b) == hops_of(rb).push(b.last()));
        assert(hops_of(a).last() == a.last());
        assert(hops_of(b).last() == b.last());
        assert(hops_of(ra) =~= hops_of(a).drop_last());
        assert(hops_of(rb) =~= hops_of(b).drop_last());
        lemma_cuts_alike(m, ra, rb);
        if let ManagerCall::Hop(hop, sample_ts, refine) = a.last() {
            lemma_hop_alike(after_calls(m, ra), after_calls(m, rb), hop, sample_ts, refine);
            assert(alike(after_calls(m, a), after_calls(m, b)));
            assert(fed_on_the_way(m, a) == fed_on_the_way(m, b));
        }
    } else if a.len() > 0 {
        assert(hops_of(a) == hops_of(a.drop_last()).push(a.last()));
        assert(hops_of(b) == Seq::<ManagerCall>::empty());
        assert(hops_of(a).len() > 0);
    } else if b.len() > 0 {
        assert(hops_of(b) == hops_of(b.drop_last()).push(b.last()));
        assert(hops_of(a) == Seq::<ManagerCall>::empty());
        assert(hops_of(b).len() > 0);
    } else {
        assert(after_calls(m, a) == m && after_calls(m, b) == m);
        assert(alike(m, m));
    }
}

/// However a sequence of hops is cut into batches, and whatever the decoders report in them,
/// every decoder is fed the same, and is told the same levels, as long as no track closes for
/// silence. (When a track does so depends on when its characters are noted.)
pub proof fn law_cuts_do_not_change_what_decoders_are_told(
    m: ManagerModel,
    a: Seq<ManagerCall>,
    b: Seq<ManagerCall>,
    id: u32,
    interval: nat,
)
    requires
        hops_of(a) == hops_of(b),
        none_falls_silent_on_the_way(m, a),
        none_falls_silent_on_the_way(m, b),
    ensures
        fed_on_the_way(m, a) == fed_on_the_way(m, b),
        told(None, levels_of(fed_on_the_way(m, a), id), 1, interval) == told(
            None,
            levels_of(fed_on_the_way(m, b), id),
            1,
            interval,
        ),
        alike(after_calls(m, a), after_calls(m, b)),
{
    lemma_cuts_alike(m, a, b);
}

/// The track has reported something, before or in the final flush.
pub open spec fn has_reported(tracks: Seq<TrackModel>, flushed: Seq<DecoderEvent>, id: u32) -> bool {
    exists|i: int|
        0 <= i < tracks.len() && (#[trigger] tracks[i]).id == id && (tracks[i].has_emitted || (
        exists|e: int|
            0 <= e < flushed.len() && spec_event_track_id(#[trigger] flushed[e]) == id))
}

/// What leaves at the end of the stream.
pub open spec fn finished(tracks: Seq<TrackModel>, flushed: Seq<DecoderEvent>) -> Seq<
    DecoderEvent,
> {
    time_order(time_order(flushed) + final_events(tracks, flushed))
}

proof fn lemma_final_events(tracks: Seq<TrackModel>, flushed: Seq<DecoderEvent>, id: u32)
    requires
        ids_ascend(tracks),
    ensures
        ({
            let all = final_events(tracks, flushed);
            let end = DecoderEvent::TrackClosed { track_id: id, closure: ClosureKind::SignalEnded };
            &&& all.to_multiset().count(end) == if has_reported(tracks, flushed, id) {
                1nat
            } else {
                0nat
            }
            &&& forall|k: int|
                0 <= k < all.len() ==> (#[trigger] all[k] matches DecoderEvent::TrackClosed {
                    track_id,
                    closure,
                } && closure == ClosureKind::SignalEnded)
        }),
    decreases tracks.len(),
{
    broadcast use vstd::seq_lib::group_to_multiset_ensures;

    let all = final_events(tracks, flushed);
    if tracks.len() > 0 {
        let rest = tracks.drop_last();
        let t = tracks.last();
        assert(ids_ascend(rest)) by {
            assert forall|i: int, j: int| 0 <= i < j < rest.len() implies (#[trigger] rest[i]).id < (
            #[trigger] rest[j]).id by {
                assert(rest[i] == tracks[i] && rest[j] == tracks[j]);
            }
        }
        lemma_final_events(rest, flushed, id);
        let inner = final_events(rest, flushed);
        let reports = t.has_emitted || heard(flushed, t.id);
        if reports {
            vstd::seq_lib::to_multiset_build(
                inner,
                DecoderEvent::TrackClosed { track_id: t.id, closure: ClosureKind::SignalEnded },
            );
        }
        if has_reported(rest, flushed, id) {
            let i = choose|i: int|
                0 <= i < rest.len() && (#[trigger] rest[i]).id == id && (rest[i].has_emitted
                    || heard(flushed, id));
            assert(tracks[i].id == id);
            assert(tracks[i].id < tracks[tracks.len() - 1].id);
        }
        if has_reported(tracks, flushed, id) {
            let i = choose|i: int|
                0 <= i < tracks.len() && (#[trigger] tracks[i]).id == id && (tracks[i].has_emitted
                    || heard(flushed, id));
            if i < rest.len() {
                assert(rest[i].id == id);
            }
        }
        if t.id == id && reports {
            assert(tracks[tracks.len() - 1].id == id);
        }
    }
}

/// At the end of the stream exactly one closure is told of every open track that has ever
/// reported something, and of no other track; it says that the signal ended, and nothing of
/// the track follows it. All events leave by their times, at equal times by their tracks.
pub proof fn law_the_end_closes_each_reporter_once(
    tracks: Seq<TrackModel>,
    flushed: Seq<DecoderEvent>,
    id: u32,
)
    requires
        ids_ascend(tracks),
        forall|k: int| 0 <= k < flushed.len() ==> !(#[trigger] flushed[k] is TrackClosed),
    ensures
        ({
            let out = finished(tracks, flushed);
            let end = DecoderEvent::TrackClosed { track_id: id, closure: ClosureKind::SignalEnded };
            &&& out.to_multiset().count(end) == if has_reported(tracks, flushed, id) {
                1nat
            } else {
                0nat
            }
            &&& forall|k: int|
                0 <= k < out.len() ==> (#[trigger] out[k] matches DecoderEvent::TrackClosed {
                    track_id,
                    closure,
                } ==> closure == ClosureKind::SignalEnded)
            &&& forall|i: int, j: int|
                0 <= i < j < out.len() && out[i] is TrackClosed && spec_event_track_id(
                    #[trigger] out[i],
                ) == spec_event_track_id(#[trigger] out[j]) ==> out[j] is TrackClosed
            &&& forall|i: int, j: int|
                0 <= i < j < out.len() ==> spec_event_sample_ts(#[trigger] out[i])
                    < spec_event_sample_ts(#[trigger] out[j]) || spec_event_sample_ts(out[i])
                    == spec_event_sample_ts(out[j]) && spec_event_track_id(out[i])
                    <= spec_event_track_id(out[j])
        }),
{
    broadcast use vstd::seq_lib::group_to_multiset_ensures;

    let end = DecoderEvent::TrackClosed { track_id: id, closure: ClosureKind::SignalEnded };
    let sorted = time_order(flushed);
    let closing = final_events(tracks, flushed);
    let all = sorted + closing;
    let out = finished(tracks, flushed);
    lemma_final_events(tracks, flushed, id);
    law_time_order_keeps_every_event(flushed);
    law_time_order_keeps_every_event(all);
    vstd::seq_lib::lemma_multiset_commutative(sorted, closing);
    assert(all.to_multiset().count(end) == sorted.to_multiset().count(end)
        + closing.to_multiset().count(end));
    if flushed.contains(end) {
        let k = choose|k: int| 0 <= k < flushed.len() && flushed[k] == end;
        assert(flushed[k] is TrackClosed);
    }
    assert(flushed.to_multiset().count(end) == 0);
    assert forall|k: int| 0 <= k < sorted.len() implies !(#[trigger] sorted[k] is TrackClosed) by {
        assert(sorted.contains(sorted[k]));
        assert(flushed.to_multiset().count(sorted[k]) > 0);
        assert(flushed.contains(sorted[k]));
    }
    assert(closures_at_the_end(all, sorted.len() as int)) by {
        assert forall|k: int| 0 <= k < all.len() implies ((#[trigger] all[k] is TrackClosed) <==> k
            >= sorted.len()) by {
            if k < sorted.len() {
                assert(all[k] == sorted[k]);
            } else {
                assert(all[k] == closing[k - sorted.len()]);
            }
        }
    }
    assert forall|k: int| 0 <= k < out.len() implies (#[trigger] out[k] matches DecoderEvent::TrackClosed {
        track_id,
        closure,
    } ==> closure == ClosureKind::SignalEnded) by {
        assert(out.contains(out[k]));
        assert(all.to_multiset().count(out[k]) > 0);
        assert(all.contains(out[k]));
        let a = choose|a: int| 0 <= a < all.len() && all[a] == out[k];
        if a < sorted.len() {
            assert(all[a] == sorted[a]);
        } else {
            assert(all[a] == closing[a - sorted.len()]);
        }
    }
    assert(out.len() == all.len());
    assert forall|i: int, j: int|
        0 <= i < j < out.len() && out[i] is TrackClosed && spec_event_track_id(#[trigger] out[i])
            == spec_event_track_id(#[trigger] out[j]) implies out[j] is TrackClosed by {
        law_final_closure_ends_its_track(all, sorted.len() as int, i, j);
    }
    assert forall|i: int, j: int| 0 <= i < j < out.len() implies spec_event_sample_ts(
        #[trigger] out[i],
    ) < spec_event_sample_ts(#[trigger] out[j]) || spec_event_sample_ts(out[i])
        == spec_event_sample_ts(out[j]) && spec_event_track_id(out[i]) <= spec_event_track_id(
        out[j],
    ) by {
        crate::events::law_the_end_leaves_in_order(all, i, j);
    }
}

/// A stream that has been ended has nothing more to tell.
pub proof fn law_a_second_end_tells_nothing()
    ensures
        finished(Seq::empty(), Seq::empty()) == Seq::<DecoderEvent>::empty(),
{
    law_time_order_keeps_every_event(Seq::empty());
    assert(time_order(Seq::empty()) =~= Seq::<DecoderEvent>::empty());
    assert(Seq::<DecoderEvent>::empty() + final_events(Seq::empty(), Seq::empty())
        =~= Seq::<DecoderEvent>::empty());
}

/// A channel is free to give birth on a hop: it rises, no track that is still open owns it,
/// and it is not barred.
#[verifier::opaque]
pub open spec fn free_to_give_birth(
    m: ManagerModel,
    hop: HopObservation,
    sample_ts: u64,
    refine: bool,
    channel: int,
) -> bool {
    let driven = m.driven(hop, sample_ts, refine);
    &&& 0 <= channel < m.n()
    &&& hop.rise@[channel]
    &&& driven.cooldown[channel] <= m.hop_counter + 1
    &&& forall|i: int|
        0 <= i < driven.kept.len() ==> !(#[trigger] driven.kept[i]).owns(m.n(), channel)
}

proof fn lemma_owner(tracks: Seq<TrackModel>, n: nat, channel: int)
    ensures
        owner(tracks, n, channel) is None <==> forall|i: int|
            0 <= i < tracks.len() ==> !(#[trigger] tracks[i]).owns(n, channel),
        owner(tracks, n, channel) is Some ==> exists|i: int|
            0 <= i < tracks.len() && (#[trigger] tracks[i]).owns(n, channel) && owner(
                tracks,
                n,
                channel,
            ) == Some(tracks[i].id) && forall|j: int|
                i < j < tracks.len() ==> !(#[trigger] tracks[j]).owns(n, channel),
    decreases tracks.len(),
{
    if tracks.len() > 0 {
        let rest = tracks.drop_last();
        lemma_owner(rest, n, channel);
        let last = tracks[tracks.len() - 1];
        if last.owns(n, channel) {
        } else {
            if owner(rest, n, channel) is Some {
                let i = choose|i: int|
                    0 <= i < rest.len() && (#[trigger] rest[i]).owns(n, channel) && owner(
                        rest,
                        n,
                        channel,
                    ) == Some(rest[i].id) && forall|j: int|
                        i < j < rest.len() ==> !(#[trigger] rest[j]).owns(n, channel);
                assert(tracks[i] == rest[i]);
                assert forall|j: int| i < j < tracks.len() implies !(#[trigger] tracks[j]).owns(
                    n,
                    channel,
                ) by {
                    if j < rest.len() {
                        assert(tracks[j] == rest[j]);
                    }
                }
            } else {
                assert forall|i: int| 0 <= i < tracks.len() implies !(#[trigger] tracks[i]).owns(
                    n,
                    channel,
                ) by {
                    if i < rest.len() {
                        assert(tracks[i] == rest[i]);
                    }
                }
            }
        }
    }
}

/// A channel has an owner if and only if some track reaches it, and of several it is the
/// youngest.
pub proof fn law_the_youngest_owns_a_channel(tracks: Seq<TrackModel>, n: nat, channel: int)
    ensures
        owner(tracks, n, channel) is None <==> forall|i: int|
            0 <= i < tracks.len() ==> !(#[trigger] tracks[i]).owns(n, channel),
        owner(tracks, n, channel) is Some ==> exists|i: int|
            0 <= i < tracks.len() && (#[trigger] tracks[i]).owns(n, channel) && owner(
                tracks,
                n,
                channel,
            ) == Some(tracks[i].id) && forall|j: int|
                i < j < tracks.len() ==> !(#[trigger] tracks[j]).owns(n, channel),
{
    lemma_owner(tracks, n, channel);
}

/// A track that was just born on a channel of the band owns it and the two beside it.
proof fn lemma_born_owns(t: TrackModel, n: nat, channel: int)
    requires
        0 <= t.birth < n,
        t.center == t.birth * crate::track::CHANNEL,
    ensures
        t.owns(n, channel) <==> {
            ||| channel == t.birth
            ||| channel == (if t.birth + 1 < n {
                t.birth + 1
            } else {
                0
            })
            ||| channel == (if t.birth > 0 {
                t.birth - 1
            } else {
                n - 1
            })
        },
{
    let m = n as int;
    let c = t.birth;
    crate::track::law_rounding_is_to_the_nearest(t.center, crate::track::CHANNEL as int);
    assert(crate::track::nearest_channel(t.center) == c);
    vstd::arithmetic::div_mod::lemma_small_mod(c as nat, n);
    if c + 1 < n {
        vstd::arithmetic::div_mod::lemma_small_mod((c + 1) as nat, n);
    } else {
        vstd::arithmetic::div_mod::lemma_mod_self_0(m);
    }
    if c > 0 {
        vstd::arithmetic::div_mod::lemma_small_mod((c - 1) as nat, n);
    } else {
        vstd::arithmetic::div_mod::lemma_fundamental_div_mod_converse(-1, m, -1, m - 1);
    }
}

/// The track is as it is on the hop of its birth: a candidate with one rise to its name, right
/// on its channel, with that channel's level, without a decoder, and silent so far.
pub open spec fn newborn(t: TrackModel, cfg: DetectorConfig, hop: HopObservation) -> bool {
    &&& t.center == t.birth * crate::track::CHANNEL
    &&& t.snr == hop.snr@[t.birth]
    &&& t.life.state == LifecycleState::Candidate
    &&& t.life.confirm_count == 1 && t.life.hang_count == 0 && t.life.silent_count == 0
    &&& t.life.confirm_hops == cfg.confirm_hops
    &&& t.life.hang_hops == cfg.hang_hops
    &&& t.life.gc_hops == cfg.gc_hops
    &&& !t.decoding && !t.has_emitted
    &&& t.refiner_channel is None && t.refiner_hops == 0
}

/// Where the scan for births stands: `tracks` are those that were there, and those that were
/// born on channels below `k`.
spec fn scanned(
    tracks: Seq<TrackModel>,
    first: int,
    first_id: int,
    cfg: DetectorConfig,
    hop: HopObservation,
    n: nat,
) -> bool {
    forall|i: int|
        first <= i < tracks.len() ==> {
            &&& newborn(#[trigger] tracks[i], cfg, hop)
            &&& 0 <= tracks[i].birth < n
            &&& tracks[i].id == first_id + (i - first)
        }
}

proof fn lemma_eligible_shrinks(
    tracks: Seq<TrackModel>,
    t: TrackModel,
    hop: HopObservation,
    cooldown: Seq<nat>,
    now: nat,
    channel: int,
)
    ensures
        eligible(tracks.push(t), hop, cooldown, now, channel) <==> eligible(
            tracks,
            hop,
            cooldown,
            now,
            channel,
        ) && !t.owns(cooldown.len(), channel),
{
    assert(tracks.push(t).drop_last() =~= tracks);
}

/// Births from channel `k` on, told by what they are: each is on a channel from `k` on that
/// was free, and every channel from `k` on that was free has an owner afterwards.
proof fn lemma_births(
    tracks: Seq<TrackModel>,
    next_id: u32,
    hop: HopObservation,
    cooldown: Seq<nat>,
    now: nat,
    cfg: DetectorConfig,
    k: int,
    first: int,
    first_id: int,
)
    requires
        0 <= k,
        0 <= first <= tracks.len(),
        next_id == first_id + (tracks.len() - first),
        next_id + cooldown.len() - k <= u32::MAX,
        scanned(tracks, first, first_id, cfg, hop, cooldown.len()),
    ensures
        ({
            let all = spawn_from(tracks, next_id, hop, cooldown, now, cfg, k);
            &&& tracks.is_prefix_of(all)
            &&& scanned(all, first, first_id, cfg, hop, cooldown.len())
            &&& forall|i: int|
                tracks.len() <= i < all.len() ==> (#[trigger] all[i]).birth >= k && eligible(
                    tracks,
                    hop,
                    cooldown,
                    now,
                    all[i].birth,
                )
            &&& forall|c: int|
                k <= c && #[trigger] eligible(tracks, hop, cooldown, now, c) ==> owner(
                    all,
                    cooldown.len(),
                    c,
                ) is Some
        }),
    decreases cooldown.len() - k,
{
    let n = cooldown.len();
    let all = spawn_from(tracks, next_id, hop, cooldown, now, cfg, k);
    if k >= n {
    } else if !eligible(tracks, hop, cooldown, now, k) {
        lemma_births(tracks, next_id, hop, cooldown, now, cfg, k + 1, first, first_id);
        assert forall|c: int|
            k <= c && #[trigger] eligible(tracks, hop, cooldown, now, c) implies owner(all, n, c) is Some by {
            assert(c != k);
        }
    } else {
        let both = eligible(tracks, hop, cooldown, now, k + 1);
        let winner = if both && hop.power@[k + 1].code > hop.power@[k].code {
            k + 1
        } else {
            k
        };
        let t = TrackModel::born(next_id, winner, cfg, hop.snr@[winner]);
        let more = tracks.push(t);
        let step = if both { k + 2 } else { k + 1 };
        assert forall|i: int| first <= i < more.len() implies {
            &&& newborn(#[trigger] more[i], cfg, hop)
            &&& 0 <= more[i].birth < n
            &&& more[i].id == first_id + (i - first)
        } by {
            if i < tracks.len() {
                assert(more[i] == tracks[i]);
            }
        }
        lemma_births(more, (next_id + 1) as u32, hop, cooldown, now, cfg, step, first, first_id);
        assert(all == spawn_from(more, (next_id + 1) as u32, hop, cooldown, now, cfg, step));
        assert(tracks =~= more.subrange(0, tracks.len() as int));
        assert(tracks =~= all.subrange(0, tracks.len() as int));
        assert(all[tracks.len() as int] == more[tracks.len() as int]);
        assert forall|i: int| tracks.len() <= i < all.len() implies (#[trigger] all[i]).birth >= k
            && eligible(tracks, hop, cooldown, now, all[i].birth) by {
            if i > tracks.len() {
                lemma_eligible_shrinks(tracks, t, hop, cooldown, now, all[i].birth);
            }
        }
        assert forall|c: int|
            k <= c && #[trigger] eligible(tracks, hop, cooldown, now, c) implies owner(all, n, c) is Some by {
            lemma_eligible_shrinks(tracks, t, hop, cooldown, now, c);
            lemma_born_owns(t, n, c);
            if t.owns(n, c) {
                lemma_owner(all, n, c);
                assert(all[tracks.len() as int] == t);
            } else {
                assert(c >= step);
                assert(eligible(more, hop, cooldown, now, c));
            }
        }
    }
}

/// Of two neighbouring channels that are free, with no free one beside them, exactly one gives
/// birth, and it is the stronger.
proof fn lemma_pair_births(
    tracks: Seq<TrackModel>,
    next_id: u32,
    hop: HopObservation,
    cooldown: Seq<nat>,
    now: nat,
    cfg: DetectorConfig,
    j: int,
    k: int,
    first: int,
    first_id: int,
) -> (at: int)
    requires
        0 <= j <= k,
        k + 1 < cooldown.len(),
        0 <= first <= tracks.len(),
        next_id == first_id + (tracks.len() - first),
        next_id + cooldown.len() - j <= u32::MAX,
        scanned(tracks, first, first_id, cfg, hop, cooldown.len()),
        eligible(tracks, hop, cooldown, now, k),
        eligible(tracks, hop, cooldown, now, k + 1),
        !eligible(tracks, hop, cooldown, now, if k > 0 {
            k - 1
        } else {
            cooldown.len() - 1
        }),
        !eligible(tracks, hop, cooldown, now, if k + 2 < cooldown.len() {
            k + 2
        } else {
            0
        }),
        forall|i: int|
            first <= i < tracks.len() ==> (#[trigger] tracks[i]).birth != k && tracks[i].birth != k
                + 1,
    ensures
        ({
            let all = spawn_from(tracks, next_id, hop, cooldown, now, cfg, j);
            &&& tracks.len() <= at < all.len()
            &&& all[at].birth == (if hop.power@[k + 1].code > hop.power@[k].code {
                k + 1
            } else {
                k
            })
            &&& forall|i: int|
                first <= i < all.len() && i != at ==> (#[trigger] all[i]).birth != k && all[i].birth
                    != k + 1
        }),
    decreases cooldown.len() - j,
{
    let n = cooldown.len();
    let all = spawn_from(tracks, next_id, hop, cooldown, now, cfg, j);
    if !eligible(tracks, hop, cooldown, now, j) {
        lemma_pair_births(tracks, next_id, hop, cooldown, now, cfg, j + 1, k, first, first_id)
    } else {
        let both = eligible(tracks, hop, cooldown, now, j + 1);
        let winner = if both && hop.power@[j + 1].code > hop.power@[j].code {
            j + 1
        } else {
            j
        };
        let t = TrackModel::born(next_id, winner, cfg, hop.snr@[winner]);
        let more = tracks.push(t);
        let step = if both { j + 2 } else { j + 1 };
        let next = (next_id + 1) as u32;
        assert(all == spawn_from(more, next, hop, cooldown, now, cfg, step));
        assert forall|i: int| first <= i < more.len() implies {
            &&& newborn(#[trigger] more[i], cfg, hop)
            &&& 0 <= more[i].birth < n
            &&& more[i].id == first_id + (i - first)
        } by {
            if i < tracks.len() {
                assert(more[i] == tracks[i]);
            }
        }
        if j == k {
            lemma_births(more, next, hop, cooldown, now, cfg, step, first, first_id);
            let at = tracks.len() as int;
            assert(all[at] == more[at]);
            assert forall|i: int| first <= i < all.len() && i != at implies (
            #[trigger] all[i]).birth != k && all[i].birth != k + 1 by {
                if i < at {
                    assert(all[i] == more[i] && more[i] == tracks[i]);
                }
            }
            at
        } else {
            let below = if k > 0 { k - 1 } else { n - 1 };
            let above = if k + 2 < n { k + 2 } else { 0 };
            assert(j != k - 1);
            assert(both ==> j + 1 < k - 1);
            lemma_born_owns(t, n, k);
            lemma_born_owns(t, n, k + 1);
            lemma_eligible_shrinks(tracks, t, hop, cooldown, now, k);
            lemma_eligible_shrinks(tracks, t, hop, cooldown, now, k + 1);
            lemma_eligible_shrinks(tracks, t, hop, cooldown, now, below);
            lemma_eligible_shrinks(tracks, t, hop, cooldown, now, above);
            assert forall|i: int| first <= i < more.len() implies (#[trigger] more[i]).birth != k
                && more[i].birth != k + 1 by {
                if i < tracks.len() {
                    assert(more[i] == tracks[i]);
                }
            }
            lemma_pair_births(more, next, hop, cooldown, now, cfg, step, k, first, first_id)
        }
    }
}

proof fn lemma_free(
    m: ManagerModel,
    hop: HopObservation,
    sample_ts: u64,
    refine: bool,
    channel: int,
)
    requires
        m.wf(),
    ensures
        ({
            let driven = m.driven(hop, sample_ts, refine);
            free_to_give_birth(m, hop, sample_ts, refine, channel) <==> eligible(
                driven.kept,
                hop,
                driven.cooldown,
                m.hop_counter + 1,
                channel,
            )
        }),
{
    reveal(free_to_give_birth);
    lemma_driven(m, hop, sample_ts, refine);
    lemma_owner(m.driven(hop, sample_ts, refine).kept, m.n(), channel);
}

proof fn lemma_free_is_unowned(
    m: ManagerModel,
    hop: HopObservation,
    sample_ts: u64,
    refine: bool,
    channel: int,
)
    requires
        free_to_give_birth(m, hop, sample_ts, refine, channel),
    ensures
        0 <= channel < m.n(),
        forall|i: int|
            0 <= i < m.driven(hop, sample_ts, refine).kept.len() ==> !(#[trigger] m.driven(
                hop,
                sample_ts,
                refine,
            ).kept[i]).owns(m.n(), channel),
{
    reveal(free_to_give_birth);
}

/// Once the warm-up is over no signal is passed over: every channel that was free to give
/// birth is owned by some track when the births are in. What was born was born on a free
/// channel, right on it and with its level, and under the next identities in turn.
pub proof fn law_every_rise_is_taken_up(
    m: ManagerModel,
    hop: HopObservation,
    sample_ts: u64,
    refine: bool,
)
    requires
        m.wf(),
        m.has_room(),
        m.hop_counter >= m.cfg.warmup_hops,
    ensures
        ({
            let kept = m.driven(hop, sample_ts, refine).kept;
            let populated = m.populated(hop, sample_ts, refine);
            &&& forall|channel: int|
                #[trigger] free_to_give_birth(m, hop, sample_ts, refine, channel) ==> exists|i: int|
                    0 <= i < populated.len() && (#[trigger] populated[i]).owns(m.n(), channel)
            &&& kept.len() <= populated.len()
            &&& forall|i: int| 0 <= i < kept.len() ==> #[trigger] populated[i] == kept[i]
            &&& forall|i: int|
                kept.len() <= i < populated.len() ==> {
                    &&& free_to_give_birth(
                        m,
                        hop,
                        sample_ts,
                        refine,
                        (#[trigger] populated[i]).birth,
                    )
                    &&& newborn(populated[i], m.cfg, hop)
                    &&& populated[i].id == m.next_id + (i - kept.len())
                }
        }),
{
    lemma_driven(m, hop, sample_ts, refine);
    let driven = m.driven(hop, sample_ts, refine);
    let kept = driven.kept;
    let populated = m.populated(hop, sample_ts, refine);
    let first = kept.len() as int;
    lemma_births(
        kept,
        m.next_id,
        hop,
        driven.cooldown,
        m.hop_counter + 1,
        m.cfg,
        0,
        first,
        m.next_id as int,
    );
    assert forall|channel: int|
        #[trigger] free_to_give_birth(m, hop, sample_ts, refine, channel) implies exists|i: int|
        0 <= i < populated.len() && (#[trigger] populated[i]).owns(m.n(), channel) by {
        lemma_free(m, hop, sample_ts, refine, channel);
        lemma_owner(populated, m.n(), channel);
        assert(eligible(kept, hop, driven.cooldown, m.hop_counter + 1, channel));
    }
    assert forall|i: int| kept.len() <= i < populated.len() implies {
        &&& free_to_give_birth(m, hop, sample_ts, refine, (#[trigger] populated[i]).birth)
        &&& newborn(populated[i], m.cfg, hop)
        &&& populated[i].id == m.next_id + (i - kept.len())
    } by {
        lemma_free(m, hop, sample_ts, refine, populated[i].birth);
    }
}

/// Where two neighbouring channels are free to give birth, and neither of the two beside them
/// is, a signal that lies between them opens one track and no more: the track is born on the
/// channel with at least the power of the other, on the lower one where they are equal, and
/// has that channel's level.
pub proof fn law_the_stronger_of_two_channels_gives_birth(
    m: ManagerModel,
    hop: HopObservation,
    sample_ts: u64,
    refine: bool,
    k: int,
)
    requires
        m.wf(),
        m.has_room(),
        m.hop_counter >= m.cfg.warmup_hops,
        k + 1 < m.n(),
        free_to_give_birth(m, hop, sample_ts, refine, k),
        free_to_give_birth(m, hop, sample_ts, refine, k + 1),
        !free_to_give_birth(m, hop, sample_ts, refine, if k > 0 {
            k - 1
        } else {
            m.n() - 1
        }),
        !free_to_give_birth(m, hop, sample_ts, refine, if k + 2 < m.n() {
            k + 2
        } else {
            0
        }),
    ensures
        ({
            let kept = m.driven(hop, sample_ts, refine).kept;
            let populated = m.populated(hop, sample_ts, refine);
            exists|i: int|
                {
                    let b = (#[trigger] populated[i]).birth;
                    &&& kept.len() <= i < populated.len()
                    &&& b == k || b == k + 1
                    &&& hop.power@[b].code >= hop.power@[k].code
                    &&& hop.power@[b].code >= hop.power@[k + 1].code
                    &&& hop.power@[k].code == hop.power@[k + 1].code ==> b == k
                    &&& populated[i].snr == hop.snr@[b]
                    &&& populated[i].center == b * crate::track::CHANNEL
                    &&& forall|j: int|
                        kept.len() <= j < populated.len() && j != i ==> (
                        #[trigger] populated[j]).birth != k && populated[j].birth != k + 1
                }
        }),
{
    lemma_driven(m, hop, sample_ts, refine);
    let driven = m.driven(hop, sample_ts, refine);
    let kept = driven.kept;
    let populated = m.populated(hop, sample_ts, refine);
    lemma_free(m, hop, sample_ts, refine, k);
    lemma_free(m, hop, sample_ts, refine, k + 1);
    lemma_free(m, hop, sample_ts, refine, if k > 0 { k - 1 } else { m.n() - 1 });
    lemma_free(m, hop, sample_ts, refine, if k + 2 < m.n() { k + 2 } else { 0 });
    let at = lemma_pair_births(
        kept,
        m.next_id,
        hop,
        driven.cooldown,
        m.hop_counter + 1,
        m.cfg,
        0,
        k,
        kept.len() as int,
        m.next_id as int,
    );
    law_every_rise_is_taken_up(m, hop, sample_ts, refine);
    assert(newborn(populated[at], m.cfg, hop));
}

/// A channel that is free to give birth while neither of the two beside it is opens a track of
/// its own.
pub proof fn law_a_lone_rise_gives_birth(
    m: ManagerModel,
    hop: HopObservation,
    sample_ts: u64,
    refine: bool,
    k: int,
)
    requires
        m.wf(),
        m.has_room(),
        m.hop_counter >= m.cfg.warmup_hops,
        free_to_give_birth(m, hop, sample_ts, refine, k),
        m.n() > 1,
        !free_to_give_birth(m, hop, sample_ts, refine, if k > 0 {
            k - 1
        } else {
            m.n() - 1
        }),
        !free_to_give_birth(m, hop, sample_ts, refine, if k + 1 < m.n() {
            k + 1
        } else {
            0
        }),
    ensures
        ({
            let kept = m.driven(hop, sample_ts, refine).kept;
            let populated = m.populated(hop, sample_ts, refine);
            exists|i: int|
                kept.len() <= i < populated.len() && (#[trigger] populated[i]).birth == k
                    && populated[i].snr == hop.snr@[k] && populated[i].center == k
                    * crate::track::CHANNEL
        }),
{
    law_every_rise_is_taken_up(m, hop, sample_ts, refine);
    let kept = m.driven(hop, sample_ts, refine).kept;
    let populated = m.populated(hop, sample_ts, refine);
    lemma_free_is_unowned(m, hop, sample_ts, refine, k);
    let i = choose|i: int| 0 <= i < populated.len() && (#[trigger] populated[i]).owns(m.n(), k);
    if i < kept.len() {
        assert(populated[i] == kept[i]);
    } else {
        lemma_free_is_unowned(m, hop, sample_ts, refine, populated[i].birth);
        lemma_lone_rise(
            populated[i],
            m.n(),
            k,
            |c: int| free_to_give_birth(m, hop, sample_ts, refine, c),
        );
    }
}

proof fn lemma_lone_rise(
    t: TrackModel,
    n: nat,
    k: int,
    free: spec_fn(int) -> bool,
)
    requires
        t.owns(n, k),
        n > 1,
        free(t.birth),
        0 <= t.birth < n,
        t.center == t.birth * crate::track::CHANNEL,
        !free(if k > 0 {
            k - 1
        } else {
            n - 1
        }),
        !free(if k + 1 < n {
            k + 1
        } else {
            0
        }),
    ensures
        t.birth == k,
{
    lemma_born_owns(t, n, k);
}

/// The closure is the one that the hop makes of the track: the track's own life ended, of its
/// signal where its hang ran out, and for another reason otherwise. Only the end of the signal
/// lets the decoder resolve what it has begun, and only a track that reported something before
/// has its end reported.
#[verifier::opaque]
pub open spec fn closes(t: TrackModel, hop: HopObservation, n: nat, c: Closure) -> bool {
    &&& t.event(hop, n) matches LifecycleEvent::Closed(reason)
    &&& c.track_id == t.id
    &&& c.forced <==> reason == CloseReason::HangExpired
    &&& reason == CloseReason::HangExpired ==> c.kind == ClosureKind::SignalEnded
    &&& reason != CloseReason::HangExpired ==> c.kind == (ClosureKind::Bookkeeping {
        survivor_track_id: None,
    })
    &&& c.reported == t.has_emitted
}

/// The second track is the first one after the hop: it heard the channel of those it owns that
/// is the strongest, went after the peak there, took on its level, and lived on by its
/// thresholds.
#[verifier::opaque]
pub open spec fn lives_on(
    t: TrackModel,
    hop: HopObservation,
    n: nat,
    refine: bool,
    u: TrackModel,
) -> bool {
    let k = t.channel(hop, n);
    &&& !(t.event(hop, n) is Closed)
    &&& u.id == t.id
    &&& u.birth == t.birth
    &&& u.center == crate::track::followed(t.center, k, hop.peak@[k])
    &&& u.snr == hop.snr@[k]
    &&& u.life == t.life.next(hop.rise@[k], hop.drop@[k], false)
    &&& u.decoding == (t.decoding || t.event(hop, n) == LifecycleEvent::Promoted)
    &&& u.has_emitted == t.has_emitted
    &&& if refine && u.decoding {
        &&& u.refiner_channel == Some(u.centroid())
        &&& u.refiner_hops == (if t.refiner_channel == Some(u.centroid()) {
            t.refiner_hops + 1
        } else {
            1
        })
    } else {
        u.refiner_channel == t.refiner_channel && u.refiner_hops == t.refiner_hops
    }
}

/// The feed is what the hop gives to the track's decoder: it names the channel that the track
/// heard and its level, the hop's time, and where the track is now.
#[verifier::opaque]
pub open spec fn feeds_track(
    t: TrackModel,
    hop: HopObservation,
    n: nat,
    sample_ts: u64,
    refine: bool,
    feed: DecoderFeed,
) -> bool {
    let k = t.channel(hop, n);
    let center = crate::track::followed(t.center, k, hop.peak@[k]);
    &&& !(t.event(hop, n) is Closed)
    &&& t.decoding || t.event(hop, n) == LifecycleEvent::Promoted
    &&& feed.track_id == t.id
    &&& feed.leased <==> t.event(hop, n) == LifecycleEvent::Promoted
    &&& feed.channel == k
    &&& feed.snr == hop.snr@[k]
    &&& feed.sample_ts == sample_ts
    &&& (feed.offset - center) % (n * crate::track::CHANNEL) == 0
    &&& feed.centroid * crate::track::CHANNEL + feed.delta == center
    &&& feed.reset <==> refine && t.refiner_channel != Some(feed.centroid as int)
    &&& feed.refined <==> refine && t.refiner_channel == Some(feed.centroid as int)
        && t.refiner_hops + 1 >= 11
}

/// The event tells that the hop confirmed the track, when, and where it is now.
#[verifier::opaque]
pub open spec fn tells_promotion(
    t: TrackModel,
    hop: HopObservation,
    n: nat,
    sample_ts: u64,
    e: DecoderEvent,
) -> bool {
    let k = t.channel(hop, n);
    let center = crate::track::followed(t.center, k, hop.peak@[k]);
    &&& t.event(hop, n) == LifecycleEvent::Promoted
    &&& e matches DecoderEvent::TrackPromoted { track_id, sample_ts: ts, offset } && track_id
        == t.id && ts == sample_ts && (offset - center) % (n * crate::track::CHANNEL) == 0
}

proof fn lemma_rest_placed(tracks: Seq<TrackModel>, n: nat, hops: nat)
    requires
        tracks.len() > 0,
        forall|i: int| 0 <= i < tracks.len() ==> (#[trigger] tracks[i]).wf(n, hops),
    ensures
        tracks.last().wf(n, hops),
        forall|i: int|
            0 <= i < tracks.drop_last().len() ==> (#[trigger] tracks.drop_last()[i]).wf(n, hops),
{
    assert(tracks[tracks.len() - 1].wf(n, hops));
    assert forall|i: int| 0 <= i < tracks.drop_last().len() implies (
    #[trigger] tracks.drop_last()[i]).wf(n, hops) by {
        assert(tracks.drop_last()[i] == tracks[i]);
    }
}

/// What the last of the tracks adds when it takes the hop behind the others.
proof fn lemma_drive_last(
    tracks: Seq<TrackModel>,
    hop: HopObservation,
    sample_ts: u64,
    refine: bool,
    until: nat,
    start: DrivenModel,
    hops: nat,
)
    requires
        tracks.len() > 0,
        start.cooldown.len() <= crate::track::MAX_CHANNELS,
        hop.covers(start.cooldown.len()),
        tracks.last().wf(start.cooldown.len(), hops),
    ensures
        ({
            let n = start.cooldown.len();
            let t = tracks.last();
            let e = t.event(hop, n);
            let done = drive_all(tracks, hop, sample_ts, refine, until, start);
            let inner = drive_all(tracks.drop_last(), hop, sample_ts, refine, until, start);
            &&& if e is Closed {
                &&& done.kept == inner.kept
                &&& done.outcome.closures == inner.outcome.closures.push(
                    done.outcome.closures.last(),
                )
                &&& closes(t, hop, n, done.outcome.closures.last())
            } else {
                &&& done.outcome.closures == inner.outcome.closures
                &&& done.kept == inner.kept.push(done.kept.last())
                &&& lives_on(t, hop, n, refine, done.kept.last())
            }
            &&& if e == LifecycleEvent::Promoted {
                &&& done.outcome.promoted == inner.outcome.promoted.push(
                    done.outcome.promoted.last(),
                )
                &&& tells_promotion(t, hop, n, sample_ts, done.outcome.promoted.last())
            } else {
                done.outcome.promoted == inner.outcome.promoted
            }
            &&& if !(e is Closed) && (t.decoding || e == LifecycleEvent::Promoted) {
                &&& done.outcome.feeds == inner.outcome.feeds.push(done.outcome.feeds.last())
                &&& feeds_track(t, hop, n, sample_ts, refine, done.outcome.feeds.last())
            } else {
                done.outcome.feeds == inner.outcome.feeds
            }
            &&& done.counts == (match e {
                LifecycleEvent::Closed(reason) => inner.counts.recorded(reason),
                _ => inner.counts,
            })
            &&& done.cooldown == (if e == LifecycleEvent::Closed(CloseReason::Silent) {
                crate::manager::barred(inner.cooldown, t.moved(hop, n), until)
            } else {
                inner.cooldown
            })
        }),
{
    reveal(closes);
    reveal(lives_on);
    reveal(feeds_track);
    reveal(tells_promotion);
    let n = start.cooldown.len();
    let t = tracks.last();
    let (e, moved, k) = (t.event(hop, n), t.moved(hop, n), t.channel(hop, n));
    if !(e is Closed) {
        lemma_moved_is_placed(t, hop, n, hops);
        crate::track::law_the_strongest_owned_channel_is_heard(t.center, n, hop.power@);
        crate::track::law_feeds_say_where_the_track_is(
            moved,
            k,
            n,
            sample_ts,
            refine,
            e == LifecycleEvent::Promoted,
        );
    }
}

proof fn lemma_drive_closes(
    tracks: Seq<TrackModel>,
    hop: HopObservation,
    sample_ts: u64,
    refine: bool,
    until: nat,
    start: DrivenModel,
    hops: nat,
)
    requires
        start.outcome.closures.len() == 0,
        start.cooldown.len() <= crate::track::MAX_CHANNELS,
        hop.covers(start.cooldown.len()),
        forall|i: int| 0 <= i < tracks.len() ==> (#[trigger] tracks[i]).wf(
            start.cooldown.len(),
            hops,
        ),
    ensures
        ({
            let n = start.cooldown.len();
            let done = drive_all(tracks, hop, sample_ts, refine, until, start);
            &&& forall|i: int|
                #![trigger tracks[i]]
                0 <= i < tracks.len() && tracks[i].event(hop, n) is Closed ==> exists|c: int|
                    0 <= c < done.outcome.closures.len() && closes(tracks[i], hop, n, #[trigger] done.outcome.closures[c])
            &&& forall|c: int|
                #![trigger done.outcome.closures[c]]
                0 <= c < done.outcome.closures.len() ==> exists|i: int|
                    0 <= i < tracks.len() && closes(#[trigger] tracks[i], hop, n, done.outcome.closures[c])
        }),
    decreases tracks.len(),
{
    let n = start.cooldown.len();
    let done = drive_all(tracks, hop, sample_ts, refine, until, start);
    if tracks.len() > 0 {
        let rest = tracks.drop_last();
        let t = tracks.last();
        lemma_rest_placed(tracks, n, hops);
        lemma_drive_closes(rest, hop, sample_ts, refine, until, start, hops);
        lemma_drive_last(tracks, hop, sample_ts, refine, until, start, hops);
        let inner = drive_all(rest, hop, sample_ts, refine, until, start);
        assert(tracks[tracks.len() - 1] == t);
        assert forall|i: int| #![trigger tracks[i]]
            0 <= i < tracks.len() && tracks[i].event(hop, n) is Closed implies exists|c: int|
            0 <= c < done.outcome.closures.len() && closes(tracks[i], hop, n, #[trigger] done.outcome.closures[c]) by {
            if i < rest.len() {
                assert(rest[i] == tracks[i]);
                let c = choose|c: int|
                    0 <= c < inner.outcome.closures.len() && closes(rest[i], hop, n, #[trigger] inner.outcome.closures[c]);
                assert(done.outcome.closures[c] == inner.outcome.closures[c]);
            } else {
                assert(closes(t, hop, n, done.outcome.closures[done.outcome.closures.len() - 1]));
            }
        }
        assert forall|c: int| #![trigger done.outcome.closures[c]]
            0 <= c < done.outcome.closures.len() implies exists|i: int|
            0 <= i < tracks.len() && closes(#[trigger] tracks[i], hop, n, done.outcome.closures[c]) by {
            if c < inner.outcome.closures.len() {
                assert(done.outcome.closures[c] == inner.outcome.closures[c]);
                let i = choose|i: int|
                    0 <= i < rest.len() && closes(#[trigger] rest[i], hop, n, inner.outcome.closures[c]);
                assert(tracks[i] == rest[i]);
            } else {
                assert(closes(t, hop, n, done.outcome.closures[c]));
            }
        }
    }
}

proof fn lemma_drive_keeps(
    tracks: Seq<TrackModel>,
    hop: HopObservation,
    sample_ts: u64,
    refine: bool,
    until: nat,
    start: DrivenModel,
    hops: nat,
)
    requires
        start.kept.len() == 0,
        start.cooldown.len() <= crate::track::MAX_CHANNELS,
        hop.covers(start.cooldown.len()),
        forall|i: int| 0 <= i < tracks.len() ==> (#[trigger] tracks[i]).wf(
            start.cooldown.len(),
            hops,
        ),
    ensures
        ({
            let n = start.cooldown.len();
            let done = drive_all(tracks, hop, sample_ts, refine, until, start);
            &&& forall|i: int|
                #![trigger tracks[i]]
                0 <= i < tracks.len() && !(tracks[i].event(hop, n) is Closed) ==> exists|c: int|
                    0 <= c < done.kept.len() && lives_on(tracks[i], hop, n, refine, #[trigger] done.kept[c])
            &&& forall|c: int|
                #![trigger done.kept[c]]
                0 <= c < done.kept.len() ==> exists|i: int|
                    0 <= i < tracks.len() && lives_on(#[trigger] tracks[i], hop, n, refine, done.kept[c])
        }),
    decreases tracks.len(),
{
    let n = start.cooldown.len();
    let done = drive_all(tracks, hop, sample_ts, refine, until, start);
    if tracks.len() > 0 {
        let rest = tracks.drop_last();
        let t = tracks.last();
        lemma_rest_placed(tracks, n, hops);
        lemma_drive_keeps(rest, hop, sample_ts, refine, until, start, hops);
        lemma_drive_last(tracks, hop, sample_ts, refine, until, start, hops);
        let inner = drive_all(rest, hop, sample_ts, refine, until, start);
        assert(tracks[tracks.len() - 1] == t);
        assert forall|i: int| #![trigger tracks[i]]
            0 <= i < tracks.len() && !(tracks[i].event(hop, n) is Closed) implies exists|c: int|
            0 <= c < done.kept.len() && lives_on(tracks[i], hop, n, refine, #[trigger] done.kept[c]) by {
            if i < rest.len() {
                assert(rest[i] == tracks[i]);
                let c = choose|c: int|
                    0 <= c < inner.kept.len() && lives_on(rest[i], hop, n, refine, #[trigger] inner.kept[c]);
                assert(done.kept[c] == inner.kept[c]);
            } else {
                assert(lives_on(t, hop, n, refine, done.kept[done.kept.len() - 1]));
            }
        }
        assert forall|c: int| #![trigger done.kept[c]]
            0 <= c < done.kept.len() implies exists|i: int|
            0 <= i < tracks.len() && lives_on(#[trigger] tracks[i], hop, n, refine, done.kept[c]) by {
            if c < inner.kept.len() {
                assert(done.kept[c] == inner.kept[c]);
                let i = choose|i: int|
                    0 <= i < rest.len() && lives_on(#[trigger] rest[i], hop, n, refine, inner.kept[c]);
                assert(tracks[i] == rest[i]);
            } else {
                assert(lives_on(t, hop, n, refine, done.kept[c]));
            }
        }
    }
}

proof fn lemma_drive_feeds(
    tracks: Seq<TrackModel>,
    hop: HopObservation,
    sample_ts: u64,
    refine: bool,
    until: nat,
    start: DrivenModel,
    hops: nat,
)
    requires
        start.outcome.feeds.len() == 0,
        start.cooldown.len() <= crate::track::MAX_CHANNELS,
        hop.covers(start.cooldown.len()),
        forall|i: int| 0 <= i < tracks.len() ==> (#[trigger] tracks[i]).wf(
            start.cooldown.len(),
            hops,
        ),
    ensures
        ({
            let n = start.cooldown.len();
            let done = drive_all(tracks, hop, sample_ts, refine, until, start);
            &&& forall|c: int|
                #![trigger done.outcome.feeds[c]]
                0 <= c < done.outcome.feeds.len() ==> exists|i: int|
                    0 <= i < tracks.len() && feeds_track(#[trigger] tracks[i], hop, n, sample_ts, refine, done.outcome.feeds[c])
        }),
    decreases tracks.len(),
{
    let n = start.cooldown.len();
    let done = drive_all(tracks, hop, sample_ts, refine, until, start);
    if tracks.len() > 0 {
        let rest = tracks.drop_last();
        let t = tracks.last();
        lemma_rest_placed(tracks, n, hops);
        lemma_drive_feeds(rest, hop, sample_ts, refine, until, start, hops);
        lemma_drive_last(tracks, hop, sample_ts, refine, until, start, hops);
        let inner = drive_all(rest, hop, sample_ts, refine, until, start);
        assert(tracks[tracks.len() - 1] == t);
        assert forall|c: int| #![trigger done.outcome.feeds[c]]
            0 <= c < done.outcome.feeds.len() implies exists|i: int|
            0 <= i < tracks.len() && feeds_track(#[trigger] tracks[i], hop, n, sample_ts, refine, done.outcome.feeds[c]) by {
            if c < inner.outcome.feeds.len() {
                assert(done.outcome.feeds[c] == inner.outcome.feeds[c]);
                let i = choose|i: int|
                    0 <= i < rest.len() && feeds_track(#[trigger] rest[i], hop, n, sample_ts, refine, inner.outcome.feeds[c]);
                assert(tracks[i] == rest[i]);
            } else {
                assert(feeds_track(t, hop, n, sample_ts, refine, done.outcome.feeds[c]));
            }
        }
    }
}

proof fn lemma_drive_promotes(
    tracks: Seq<TrackModel>,
    hop: HopObservation,
    sample_ts: u64,
    refine: bool,
    until: nat,
    start: DrivenModel,
    hops: nat,
)
    requires
        start.outcome.promoted.len() == 0,
        start.cooldown.len() <= crate::track::MAX_CHANNELS,
        hop.covers(start.cooldown.len()),
        forall|i: int| 0 <= i < tracks.len() ==> (#[trigger] tracks[i]).wf(
            start.cooldown.len(),
            hops,
        ),
    ensures
        ({
            let n = start.cooldown.len();
            let done = drive_all(tracks, hop, sample_ts, refine, until, start);
            &&& forall|i: int|
                #![trigger tracks[i]]
                0 <= i < tracks.len() && tracks[i].event(hop, n) == LifecycleEvent::Promoted ==> exists|c: int|
                    0 <= c < done.outcome.promoted.len() && tells_promotion(tracks[i], hop, n, sample_ts, #[trigger] done.outcome.promoted[c])
            &&& forall|c: int|
                #![trigger done.outcome.promoted[c]]
                0 <= c < done.outcome.promoted.len() ==> exists|i: int|
                    0 <= i < tracks.len() && tells_promotion(#[trigger] tracks[i], hop, n, sample_ts, done.outcome.promoted[c])
        }),
    decreases tracks.len(),
{
    let n = start.cooldown.len();
    let done = drive_all(tracks, hop, sample_ts, refine, until, start);
    if tracks.len() > 0 {
        let rest = tracks.drop_last();
        let t = tracks.last();
        lemma_rest_placed(tracks, n, hops);
        lemma_drive_promotes(rest, hop, sample_ts, refine, until, start, hops);
        lemma_drive_last(tracks, hop, sample_ts, refine, until, start, hops);
        let inner = drive_all(rest, hop, sample_ts, refine, until, start);
        assert(tracks[tracks.len() - 1] == t);
        assert forall|i: int| #![trigger tracks[i]]
            0 <= i < tracks.len() && tracks[i].event(hop, n) == LifecycleEvent::Promoted implies exists|c: int|
            0 <= c < done.outcome.promoted.len() && tells_promotion(tracks[i], hop, n, sample_ts, #[trigger] done.outcome.promoted[c]) by {
            if i < rest.len() {
                assert(rest[i] == tracks[i]);
                let c = choose|c: int|
                    0 <= c < inner.outcome.promoted.len() && tells_promotion(rest[i], hop, n, sample_ts, #[trigger] inner.outcome.promoted[c]);
                assert(done.outcome.promoted[c] == inner.outcome.promoted[c]);
            } else {
                assert(tells_promotion(t, hop, n, sample_ts, done.outcome.promoted[done.outcome.promoted.len() - 1]));
            }
        }
        assert forall|c: int| #![trigger done.outcome.promoted[c]]
            0 <= c < done.outcome.promoted.len() implies exists|i: int|
            0 <= i < tracks.len() && tells_promotion(#[trigger] tracks[i], hop, n, sample_ts, done.outcome.promoted[c]) by {
            if c < inner.outcome.promoted.len() {
                assert(done.outcome.promoted[c] == inner.outcome.promoted[c]);
                let i = choose|i: int|
                    0 <= i < rest.len() && tells_promotion(#[trigger] rest[i], hop, n, sample_ts, inner.outcome.promoted[c]);
                assert(tracks[i] == rest[i]);
            } else {
                assert(tells_promotion(t, hop, n, sample_ts, done.outcome.promoted[c]));
            }
        }
    }
}

spec fn fresh_drive(m: ManagerModel, hop: HopObservation) -> DrivenModel {
    DrivenModel {
        kept: Seq::empty(),
        outcome: crate::manager::OutcomeModel {
            feeds: Seq::empty(),
            promoted: Seq::empty(),
            closures: Seq::empty(),
        },
        counts: m.counts,
        cooldown: crate::manager::freed(m.cooldown, hop.rise@),
    }
}

/// A hop closes those of the open tracks whose life ends on it, by what their strongest channel
/// does, each of them, and of its own accord no other.
pub proof fn law_a_hop_closes_what_ends(
    m: ManagerModel,
    hop: HopObservation,
    sample_ts: u64,
    refine: bool,
)
    requires
        m.wf(),
        hop.covers(m.n()),
    ensures
        ({
            let closures = m.driven(hop, sample_ts, refine).outcome.closures;
            &&& forall|i: int|
                #![trigger m.tracks[i]]
                0 <= i < m.tracks.len() && m.tracks[i].event(hop, m.n()) is Closed ==> exists|c: int|
                    0 <= c < closures.len() && closes(m.tracks[i], hop, m.n(), #[trigger] closures[c])
            &&& forall|c: int|
                #![trigger closures[c]]
                0 <= c < closures.len() ==> exists|i: int|
                    0 <= i < m.tracks.len() && closes(#[trigger] m.tracks[i], hop, m.n(), closures[c])
        }),
{
    let start = fresh_drive(m, hop);
    let until = m.hop_counter + 1 + m.cfg.silent_respawn_cooldown_hops as nat;
    assert(start.cooldown.len() == m.n());
    lemma_drive_closes(m.tracks, hop, sample_ts, refine, until, start, m.hop_counter);
    assert(m.driven(hop, sample_ts, refine) == drive_all(
        m.tracks,
        hop,
        sample_ts,
        refine,
        until,
        start,
    ));
}

/// Every open track whose life does not end on a hop is there after it, by what its strongest
/// channel does, and before the births no other one is.
pub proof fn law_what_does_not_end_lives_on(
    m: ManagerModel,
    hop: HopObservation,
    sample_ts: u64,
    refine: bool,
)
    requires
        m.wf(),
        hop.covers(m.n()),
    ensures
        ({
            let kept = m.driven(hop, sample_ts, refine).kept;
            &&& forall|i: int|
                #![trigger m.tracks[i]]
                0 <= i < m.tracks.len() && !(m.tracks[i].event(hop, m.n()) is Closed) ==> exists|c: int|
                    0 <= c < kept.len() && lives_on(m.tracks[i], hop, m.n(), refine, #[trigger] kept[c])
            &&& forall|c: int|
                #![trigger kept[c]]
                0 <= c < kept.len() ==> exists|i: int|
                    0 <= i < m.tracks.len() && lives_on(#[trigger] m.tracks[i], hop, m.n(), refine, kept[c])
        }),
{
    let start = fresh_drive(m, hop);
    let until = m.hop_counter + 1 + m.cfg.silent_respawn_cooldown_hops as nat;
    assert(start.cooldown.len() == m.n());
    lemma_drive_keeps(m.tracks, hop, sample_ts, refine, until, start, m.hop_counter);
    assert(m.driven(hop, sample_ts, refine) == drive_all(
        m.tracks,
        hop,
        sample_ts,
        refine,
        until,
        start,
    ));
}

/// Every decoder is told the level of the channel that its track heard on the hop, and where
/// the track is after it.
pub proof fn law_decoders_are_told_where_their_tracks_are(
    m: ManagerModel,
    hop: HopObservation,
    sample_ts: u64,
    refine: bool,
)
    requires
        m.wf(),
        hop.covers(m.n()),
    ensures
        ({
            let feeds = m.outcome(hop, sample_ts, refine).feeds;
            &&& forall|c: int|
                #![trigger feeds[c]]
                0 <= c < feeds.len() ==> exists|i: int|
                    0 <= i < m.tracks.len() && feeds_track(#[trigger] m.tracks[i], hop, m.n(), sample_ts, refine, feeds[c])
        }),
{
    let start = fresh_drive(m, hop);
    let until = m.hop_counter + 1 + m.cfg.silent_respawn_cooldown_hops as nat;
    assert(start.cooldown.len() == m.n());
    lemma_drive_feeds(m.tracks, hop, sample_ts, refine, until, start, m.hop_counter);
    assert(m.driven(hop, sample_ts, refine) == drive_all(
        m.tracks,
        hop,
        sample_ts,
        refine,
        until,
        start,
    ));
}

/// Every confirmation is told with the hop's time and the track's place, for each track that
/// the hop confirms and for no other.
pub proof fn law_confirmations_are_told(
    m: ManagerModel,
    hop: HopObservation,
    sample_ts: u64,
    refine: bool,
)
    requires
        m.wf(),
        hop.covers(m.n()),
    ensures
        ({
            let promoted = m.outcome(hop, sample_ts, refine).promoted;
            &&& forall|i: int|
                #![trigger m.tracks[i]]
                0 <= i < m.tracks.len() && m.tracks[i].event(hop, m.n()) == LifecycleEvent::Promoted ==> exists|c: int|
                    0 <= c < promoted.len() && tells_promotion(m.tracks[i], hop, m.n(), sample_ts, #[trigger] promoted[c])
            &&& forall|c: int|
                #![trigger promoted[c]]
                0 <= c < promoted.len() ==> exists|i: int|
                    0 <= i < m.tracks.len() && tells_promotion(#[trigger] m.tracks[i], hop, m.n(), sample_ts, promoted[c])
        }),
{
    let start = fresh_drive(m, hop);
    let until = m.hop_counter + 1 + m.cfg.silent_respawn_cooldown_hops as nat;
    assert(start.cooldown.len() == m.n());
    lemma_drive_promotes(m.tracks, hop, sample_ts, refine, until, start, m.hop_counter);
    let done = drive_all(m.tracks, hop, sample_ts, refine, until, start);
    assert(m.driven(hop, sample_ts, refine) == done);
    let promoted = m.outcome(hop, sample_ts, refine).promoted;
    assert(promoted == done.outcome.promoted);
    assert forall|i: int| #![trigger m.tracks[i]]
        0 <= i < m.tracks.len() && m.tracks[i].event(hop, m.n())
            == LifecycleEvent::Promoted implies exists|c: int|
        0 <= c < promoted.len() && tells_promotion(
            m.tracks[i],
            hop,
            m.n(),
            sample_ts,
            #[trigger] promoted[c],
        ) by {
        let c = choose|c: int|
            0 <= c < done.outcome.promoted.len() && tells_promotion(
                m.tracks[i],
                hop,
                m.n(),
                sample_ts,
                #[trigger] done.outcome.promoted[c],
            );
        assert(tells_promotion(m.tracks[i], hop, m.n(), sample_ts, promoted[c]));
    }
}

/// The hop closes the track for silence, on a place from which it owns the channel.
pub open spec fn falls_silent_on(t: TrackModel, hop: HopObservation, n: nat, channel: int) -> bool {
    let k = t.channel(hop, n);
    &&& t.event(hop, n) == LifecycleEvent::Closed(CloseReason::Silent)
    &&& crate::track::owns(crate::track::followed(t.center, k, hop.peak@[k]), n, channel)
}

proof fn lemma_drive_bars(
    tracks: Seq<TrackModel>,
    hop: HopObservation,
    sample_ts: u64,
    refine: bool,
    until: nat,
    start: DrivenModel,
    hops: nat,
    channel: int,
)
    requires
        0 <= channel < start.cooldown.len(),
        start.cooldown.len() <= crate::track::MAX_CHANNELS,
        hop.covers(start.cooldown.len()),
        forall|i: int| 0 <= i < tracks.len() ==> (#[trigger] tracks[i]).wf(
            start.cooldown.len(),
            hops,
        ),
    ensures
        ({
            let n = start.cooldown.len();
            let done = drive_all(tracks, hop, sample_ts, refine, until, start);
            &&& done.cooldown.len() == n
            &&& (exists|i: int|
                0 <= i < tracks.len() && falls_silent_on(#[trigger] tracks[i], hop, n, channel))
                ==> done.cooldown[channel] == until
            &&& (forall|i: int|
                0 <= i < tracks.len() ==> !falls_silent_on(#[trigger] tracks[i], hop, n, channel))
                ==> done.cooldown[channel] == start.cooldown[channel]
        }),
    decreases tracks.len(),
{
    let n = start.cooldown.len();
    if tracks.len() > 0 {
        let rest = tracks.drop_last();
        let t = tracks.last();
        lemma_rest_placed(tracks, n, hops);
        lemma_drive_bars(rest, hop, sample_ts, refine, until, start, hops, channel);
        lemma_drive_last(tracks, hop, sample_ts, refine, until, start, hops);
        let inner = drive_all(rest, hop, sample_ts, refine, until, start);
        let done = drive_all(tracks, hop, sample_ts, refine, until, start);
        assert(tracks[tracks.len() - 1] == t);
        if falls_silent_on(t, hop, n, channel) {
            assert(done.cooldown[channel] == until);
        } else {
            assert(done.cooldown[channel] == inner.cooldown[channel]);
            if exists|i: int|
                0 <= i < tracks.len() && falls_silent_on(#[trigger] tracks[i], hop, n, channel) {
                let i = choose|i: int|
                    0 <= i < tracks.len() && falls_silent_on(#[trigger] tracks[i], hop, n, channel);
                assert(rest[i] == tracks[i]);
            } else {
                assert forall|i: int| 0 <= i < rest.len() implies !falls_silent_on(
                    #[trigger] rest[i],
                    hop,
                    n,
                    channel,
                ) by {
                    assert(rest[i] == tracks[i]);
                }
            }
        }
    }
}

/// A track that closes for silence bars the channels that it owns for the time that is set for
/// that, counted from the hop; no other channel is barred. A channel that nothing bars anew
/// stays as it was while it rises, and is free once it does not.
pub proof fn law_silence_bars_the_tracks_channels(
    m: ManagerModel,
    hop: HopObservation,
    sample_ts: u64,
    refine: bool,
    channel: int,
)
    requires
        m.wf(),
        hop.covers(m.n()),
        0 <= channel < m.n(),
    ensures
        ({
            let then = m.stepped(hop, sample_ts, refine).cooldown[channel];
            &&& (exists|i: int|
                0 <= i < m.tracks.len() && falls_silent_on(
                    #[trigger] m.tracks[i],
                    hop,
                    m.n(),
                    channel,
                )) ==> then == m.hop_counter + 1 + m.cfg.silent_respawn_cooldown_hops
            &&& (forall|i: int|
                0 <= i < m.tracks.len() ==> !falls_silent_on(
                    #[trigger] m.tracks[i],
                    hop,
                    m.n(),
                    channel,
                )) ==> then == (if hop.rise@[channel] {
                m.cooldown[channel]
            } else {
                0
            })
        }),
{
    lemma_drive_bars(
        m.tracks,
        hop,
        sample_ts,
        refine,
        m.hop_counter + 1 + m.cfg.silent_respawn_cooldown_hops as nat,
        fresh_drive(m, hop),
        m.hop_counter,
        channel,
    );
}

/// How many of the tracks the hop closes for the reason.
pub open spec fn closed_for(
    tracks: Seq<TrackModel>,
    hop: HopObservation,
    n: nat,
    reason: CloseReason,
) -> nat
    decreases tracks.len(),
{
    if tracks.len() == 0 {
        0
    } else {
        closed_for(tracks.drop_last(), hop, n, reason) + if tracks.last().event(hop, n)
            == LifecycleEvent::Closed(reason) {
            1nat
        } else {
            0nat
        }
    }
}

proof fn lemma_drive_counts_reasons(
    tracks: Seq<TrackModel>,
    hop: HopObservation,
    sample_ts: u64,
    refine: bool,
    until: nat,
    start: DrivenModel,
    hops: nat,
)
    requires
        start.cooldown.len() <= crate::track::MAX_CHANNELS,
        hop.covers(start.cooldown.len()),
        forall|i: int| 0 <= i < tracks.len() ==> (#[trigger] tracks[i]).wf(
            start.cooldown.len(),
            hops,
        ),
        start.counts.total() + tracks.len() <= u64::MAX,
    ensures
        ({
            let n = start.cooldown.len();
            let (before, after) = (
                start.counts,
                drive_all(tracks, hop, sample_ts, refine, until, start).counts,
            );
            &&& after.unconfirmed == before.unconfirmed + closed_for(
                tracks,
                hop,
                n,
                CloseReason::Unconfirmed,
            )
            &&& after.hang_expired == before.hang_expired + closed_for(
                tracks,
                hop,
                n,
                CloseReason::HangExpired,
            )
            &&& after.silent == before.silent + closed_for(tracks, hop, n, CloseReason::Silent)
            &&& after.merged == before.merged
            &&& after.evicted == before.evicted
            &&& after.total() <= before.total() + tracks.len()
        }),
    decreases tracks.len(),
{
    let n = start.cooldown.len();
    if tracks.len() > 0 {
        let rest = tracks.drop_last();
        lemma_rest_placed(tracks, n, hops);
        lemma_drive_counts_reasons(rest, hop, sample_ts, refine, until, start, hops);
        lemma_drive_last(tracks, hop, sample_ts, refine, until, start, hops);
    }
}

/// Every end of a track is counted under its reason: of those that a hop ends by themselves,
/// each under what its life ended of, and beside them as many as were merged away and as were
/// given up.
pub proof fn law_ends_are_counted_by_reason(
    m: ManagerModel,
    hop: HopObservation,
    sample_ts: u64,
    refine: bool,
)
    requires
        m.wf(),
        m.has_room(),
        hop.covers(m.n()),
    ensures
        ({
            let then = m.stepped(hop, sample_ts, refine);
            let populated = m.populated(hop, sample_ts, refine);
            let unmerged = remaining(populated, merged(populated));
            let n = m.n();
            &&& then.counts.unconfirmed == m.counts.unconfirmed + closed_for(
                m.tracks,
                hop,
                n,
                CloseReason::Unconfirmed,
            )
            &&& then.counts.hang_expired == m.counts.hang_expired + closed_for(
                m.tracks,
                hop,
                n,
                CloseReason::HangExpired,
            )
            &&& then.counts.silent == m.counts.silent + closed_for(
                m.tracks,
                hop,
                n,
                CloseReason::Silent,
            )
            &&& then.counts.merged == m.counts.merged + (populated.len() - unmerged.len())
            &&& then.counts.evicted == m.counts.evicted + (unmerged.len() - then.tracks.len())
        }),
{
    lemma_driven(m, hop, sample_ts, refine);
    lemma_drive_counts_reasons(
        m.tracks,
        hop,
        sample_ts,
        refine,
        m.hop_counter + 1 + m.cfg.silent_respawn_cooldown_hops as nat,
        fresh_drive(m, hop),
        m.hop_counter,
    );
    lemma_populated(m, hop, sample_ts, refine);
    let driven = m.driven(hop, sample_ts, refine);
    let populated = m.populated(hop, sample_ts, refine);
    let next = (m.next_id + populated.len() - driven.kept.len()) as u32;
    crate::manager::lemma_merging(populated, m.n(), m.hop_counter + 1, next);
    lemma_within_cap(
        remaining(populated, merged(populated)),
        m.cfg.track_cap as nat,
        Seq::empty(),
        m.n(),
        m.hop_counter + 1,
        next,
    );
}

/// A track is merged away only by another one less than a channel off: a stronger one, or an
/// equally strong one that is younger. Its end is reported if it has reported something
/// before, and never as the end of its signal.
pub proof fn law_the_weaker_of_two_close_tracks_goes(tracks: Seq<TrackModel>, at: int)
    requires
        ids_ascend(tracks),
        0 <= at < merged(tracks).len(),
    ensures
        exists|loser: int, rival: int|
            #![trigger tracks[loser], tracks[rival]]
            {
                let (l, r) = (tracks[loser], tracks[rival]);
                let c = merged(tracks)[at];
                &&& 0 <= loser < tracks.len() && 0 <= rival < tracks.len()
                &&& -crate::track::CHANNEL < l.center - r.center < crate::track::CHANNEL
                &&& l.snr.code < r.snr.code || l.snr.code == r.snr.code && l.id < r.id
                &&& c.track_id == l.id
                &&& c.reported == l.has_emitted
                &&& !c.forced
                &&& c.kind != ClosureKind::SignalEnded
            },
{
    lemma_merges_are_due(tracks, 0, 1, Seq::empty(), at);
    lemma_merges_are_not_forced(tracks, at);
    let c = pairings(tracks)[at];
    let (a, b) = choose|a: int, b: int|
        0 <= a < b < tracks.len() && converged(tracks[a], tracks[b]) && c == #[trigger] merge_closure(
            tracks[a],
            tracks[b],
        );
    assert(tracks[a].id < tracks[b].id);
    let (loser, rival) = if tracks[a].snr.code <= tracks[b].snr.code {
        (a, b)
    } else {
        (b, a)
    };
    assert(merged(tracks)[at] == crate::manager::resolved(pairings(tracks), at));
    assert(tracks[loser].id == c.track_id && tracks[rival].id != c.track_id);
}

/// The first track is to be given up before the second: it is weaker, or as weak and older.
pub open spec fn given_up_before(t: TrackModel, u: TrackModel) -> bool {
    t.snr.code < u.snr.code || t.snr.code == u.snr.code && t.id < u.id
}

proof fn lemma_cap_gives_up_in_order(
    tracks: Seq<TrackModel>,
    cap: nat,
    closures: Seq<Closure>,
    n: nat,
    hops: nat,
    next_id: u32,
)
    requires
        tracks_wf(tracks, n, hops, next_id),
    ensures
        ({
            let (kept, all) = within_cap(tracks, cap, closures);
            &&& kept.len() == (if tracks.len() <= cap {
                tracks.len()
            } else {
                cap
            })
            &&& closures.is_prefix_of(all)
            &&& forall|j: int| 0 <= j < kept.len() ==> tracks.contains(#[trigger] kept[j])
            &&& forall|c: int|
                #![trigger all[c]]
                closures.len() <= c < all.len() ==> exists|i: int|
                    {
                        &&& 0 <= i < tracks.len()
                        &&& (#[trigger] tracks[i]).id == all[c].track_id
                        &&& tracks[i].has_emitted == all[c].reported
                        &&& forall|j: int|
                            0 <= j < kept.len() ==> given_up_before(tracks[i], #[trigger] kept[j])
                    }
        }),
    decreases tracks.len(),
{
    if tracks.len() > cap {
        lemma_weakest(tracks);
        let w = weakest(tracks);
        let rest = tracks.remove(w);
        let more = closures.push(crate::manager::eviction(tracks[w]));
        crate::manager::lemma_remove_keeps_order(tracks, w, n, hops, next_id);
        lemma_cap_gives_up_in_order(rest, cap, more, n, hops, next_id);
        let (kept, all) = within_cap(tracks, cap, closures);
        assert(closures =~= more.subrange(0, closures.len() as int));
        assert(closures =~= all.subrange(0, closures.len() as int));
        assert(all[closures.len() as int] == more[closures.len() as int]);
        assert forall|j: int| 0 <= j < kept.len() implies tracks.contains(#[trigger] kept[j])
            && given_up_before(tracks[w], kept[j]) by {
            assert(rest.contains(kept[j]));
            let i = choose|i: int| 0 <= i < rest.len() && rest[i] == kept[j];
            let o = if i < w { i } else { i + 1 };
            assert(rest[i] == tracks[o]);
            if o > w {
                assert(tracks[w].id < tracks[o].id);
            }
        }
        assert forall|c: int| #![trigger all[c]] closures.len() <= c < all.len() implies exists|i: int|
            {
                &&& 0 <= i < tracks.len()
                &&& (#[trigger] tracks[i]).id == all[c].track_id
                &&& tracks[i].has_emitted == all[c].reported
                &&& forall|j: int|
                    0 <= j < kept.len() ==> given_up_before(tracks[i], #[trigger] kept[j])
            } by {
            if c == closures.len() {
                assert(tracks[w].id == all[c].track_id);
            } else {
                let i = choose|i: int|
                    {
                        &&& 0 <= i < rest.len()
                        &&& (#[trigger] rest[i]).id == all[c].track_id
                        &&& rest[i].has_emitted == all[c].reported
                        &&& forall|j: int|
                            0 <= j < kept.len() ==> given_up_before(rest[i], #[trigger] kept[j])
                    };
                assert(rest[i] == tracks[if i < w { i } else { i + 1 }]);
            }
        }
    } else {
        assert(closures =~= closures.subrange(0, closures.len() as int));
    }
}

/// No more tracks are given up than the cap asks for: after a hop there are as many open as
/// there are, or as the cap allows. Each that was given up was weaker than every one that
/// stays, or as weak and older; its end is reported if it has reported something before.
pub proof fn law_no_more_is_given_up_than_needed(
    m: ManagerModel,
    hop: HopObservation,
    sample_ts: u64,
    refine: bool,
)
    requires
        m.wf(),
        m.has_room(),
        hop.covers(m.n()),
    ensures
        ({
            let populated = m.populated(hop, sample_ts, refine);
            let unmerged = remaining(populated, merged(populated));
            let kept = m.stepped(hop, sample_ts, refine).tracks;
            let closures = m.outcome(hop, sample_ts, refine).closures;
            let own = m.driven(hop, sample_ts, refine).outcome.closures.len()
                + merged(populated).len();
            &&& kept.len() == (if unmerged.len() <= m.cfg.track_cap {
                unmerged.len() as int
            } else {
                m.cfg.track_cap as int
            })
            &&& forall|j: int| 0 <= j < kept.len() ==> unmerged.contains(#[trigger] kept[j])
            &&& forall|c: int|
                #![trigger closures[c]]
                own <= c < closures.len() ==> exists|i: int|
                    {
                        &&& 0 <= i < unmerged.len()
                        &&& (#[trigger] unmerged[i]).id == closures[c].track_id
                        &&& unmerged[i].has_emitted == closures[c].reported
                        &&& forall|j: int|
                            0 <= j < kept.len() ==> given_up_before(unmerged[i], #[trigger] kept[j])
                    }
        }),
{
    lemma_populated(m, hop, sample_ts, refine);
    let populated = m.populated(hop, sample_ts, refine);
    let next = (m.next_id + populated.len() - m.driven(hop, sample_ts, refine).kept.len()) as u32;
    crate::manager::lemma_merging(populated, m.n(), m.hop_counter + 1, next);
    let unmerged = remaining(populated, merged(populated));
    lemma_cap_gives_up_in_order(
        unmerged,
        m.cfg.track_cap as nat,
        Seq::empty(),
        m.n(),
        m.hop_counter + 1,
        next,
    );
    let evicted = within_cap(unmerged, m.cfg.track_cap as nat, Seq::empty()).1;
    let closures = m.outcome(hop, sample_ts, refine).closures;
    let own = m.driven(hop, sample_ts, refine).outcome.closures.len() + merged(populated).len();
    let kept = m.stepped(hop, sample_ts, refine).tracks;
    assert forall|c: int| #![trigger closures[c]] own <= c < closures.len() implies exists|i: int|
        {
            &&& 0 <= i < unmerged.len()
            &&& (#[trigger] unmerged[i]).id == closures[c].track_id
            &&& unmerged[i].has_emitted == closures[c].reported
            &&& forall|j: int|
                0 <= j < kept.len() ==> given_up_before(unmerged[i], #[trigger] kept[j])
        } by {
        assert(closures[c] == evicted[c - own]);
    }
}

/// Only what a decoder reported changes a track at the end of a batch: any report of a track's
/// own marks it as having reported, and a character of its own starts its time of silence
/// over; all else of it stays.
pub proof fn law_reports_mark_their_tracks(
    tracks: Seq<TrackModel>,
    events: Seq<DecoderEvent>,
    i: int,
)
    requires
        0 <= i < tracks.len(),
    ensures
        ({
            let (t, u) = (tracks[i], noted(tracks, events)[i]);
            let reported = exists|e: int|
                0 <= e < events.len() && spec_event_track_id(#[trigger] events[e]) == t.id;
            let decoded = exists|e: int|
                0 <= e < events.len() && (#[trigger] events[e] matches DecoderEvent::CharDecoded {
                    track_id,
                    ..
                } && track_id == t.id);
            &&& noted(tracks, events).len() == tracks.len()
            &&& u.has_emitted == (t.has_emitted || reported)
            &&& u.life.silent_count == (if decoded {
                0
            } else {
                t.life.silent_count
            })
            &&& u.life.state == t.life.state
            &&& u.life.confirm_count == t.life.confirm_count
            &&& u.life.hang_count == t.life.hang_count
            &&& u == (TrackModel { has_emitted: u.has_emitted, life: u.life, ..t })
        }),
{
    let t = tracks[i];
    if crate::manager::spoke(events, t.id) {
        let e = choose|e: int|
            0 <= e < events.len() && spec_event_track_id(#[trigger] events[e]) == t.id
                && events[e] is CharDecoded;
        assert(events[e] matches DecoderEvent::CharDecoded { track_id, .. } && track_id == t.id);
    }
    if exists|e: int|
        0 <= e < events.len() && (#[trigger] events[e] matches DecoderEvent::CharDecoded {
            track_id,
            ..
        } && track_id == t.id) {
        let e = choose|e: int|
            0 <= e < events.len() && (#[trigger] events[e] matches DecoderEvent::CharDecoded {
                track_id,
                ..
            } && track_id == t.id);
        assert(spec_event_track_id(events[e]) == t.id && events[e] is CharDecoded);
    }
}

/// The ends that are told in a batch are those of the closures that are to be reported, each
/// with its track and its kind, in their order.
pub proof fn law_reported_ends_are_told(closures: Seq<Closure>)
    ensures
        closing_events(closures) == closures.filter(|c: Closure| c.reported).map_values(
            |c: Closure|
                DecoderEvent::TrackClosed { track_id: c.track_id, closure: c.kind },
        ),
    decreases closures.len(),
{
    reveal(Seq::filter);
    let told = |c: Closure| DecoderEvent::TrackClosed { track_id: c.track_id, closure: c.kind };
    if closures.len() > 0 {
        let rest = closures.drop_last();
        law_reported_ends_are_told(rest);
        let inner = rest.filter(|c: Closure| c.reported);
        assert(inner.push(closures.last()).map_values(told) =~= inner.map_values(told).push(
            told(closures.last()),
        ));
    } else {
        assert(closing_events(closures) =~= closures.filter(|c: Closure| c.reported).map_values(told));
    }
}

/// The number of tracks that are being decoded is that of the open tracks with a decoder.
pub proof fn law_decoding_tracks_are_counted(tracks: Seq<TrackModel>)
    ensures
        crate::manager::decoding_count(tracks) == tracks.filter(|t: TrackModel| t.decoding).len(),
    decreases tracks.len(),
{
    reveal(Seq::filter);
    if tracks.len() > 0 {
        law_decoding_tracks_are_counted(tracks.drop_last());
    }
}

/// A manager begins with nothing: no track, no channel barred, nothing counted, and the first
/// identity still to give.
pub proof fn law_a_manager_begins_with_nothing(n: nat, cfg: DetectorConfig)
    ensures
        ({
            let m = ManagerModel::fresh(n, cfg);
            &&& m.cfg == cfg
            &&& m.tracks.len() == 0
            &&& m.hop_counter == 0
            &&& m.next_id == 1
            &&& m.cooldown.len() == n
            &&& forall|k: int| 0 <= k < n ==> #[trigger] m.cooldown[k] == 0
            &&& m.counts.unconfirmed == 0 && m.counts.hang_expired == 0 && m.counts.silent == 0
            &&& m.counts.merged == 0 && m.counts.evicted == 0
        }),
{
}

} // verus!
