//! The life of one track: CANDIDATE until its rise is confirmed, then ACTIVE, with HANG
//! in between while the signal has dropped but may come back.

use crate::level::Level;
use vstd::prelude::*;

verus! {

/// The code of the number 12.
pub const TWELVE: i32 = 0x4140_0000;

/// The code of the number 3.
pub const THREE: i32 = 0x4040_0000;

/// Tunables of the detector.
#[derive(Debug, Clone, Copy)]
pub struct DetectorConfig {
    /// Rise threshold, in dB SNR.
    pub on_snr_db: Level,
    /// Drop threshold, in dB SNR.
    pub off_snr_db: Level,
    /// Rise sustained this many hops before CANDIDATE becomes ACTIVE.
    pub confirm_hops: u64,
    /// Drop sustained this many hops before a track in HANG closes.
    pub hang_hops: u64,
    /// No character for this many hops closes the track.
    pub gc_hops: u64,
    /// No track is born in the first `warmup_hops` hops.
    pub warmup_hops: u64,
    /// Most tracks that may be open after a hop.
    pub track_cap: usize,
    /// A channel whose track closed for silence is barred from a new track for this many
    /// hops, or until its rise ends.
    pub silent_respawn_cooldown_hops: u64,
}

impl Default for DetectorConfig {
    fn default() -> (cfg: Self)
        ensures
            cfg == (DetectorConfig {
                on_snr_db: Level { code: TWELVE },
                off_snr_db: Level { code: THREE },
                confirm_hops: 19,
                hang_hops: 1_875,
                gc_hops: 11_250,
                warmup_hops: 750,
                track_cap: 1_200,
                silent_respawn_cooldown_hops: 11_250,
            }),
    {
        DetectorConfig {
            on_snr_db: Level { code: TWELVE },
            off_snr_db: Level { code: THREE },
            confirm_hops: 19,
            hang_hops: 1_875,
            gc_hops: 11_250,
            warmup_hops: 750,
            track_cap: 1_200,
            silent_respawn_cooldown_hops: 11_250,
        }
    }
}

/// Where a track stands.
#[derive(Debug, Clone, Copy, PartialEq, Eq, Structural)]
pub enum LifecycleState {
    /// Rise threshold crossed, confirmation in progress.
    Candidate,
    /// Confirmed: a decoder is leased and fed.
    Active,
    /// The signal has dropped; the hang timer runs.
    Hang,
}

/// Why a track closed.
#[derive(Debug, Clone, Copy, PartialEq, Eq, Structural)]
pub enum CloseReason {
    /// The rise ended before it was confirmed.
    Unconfirmed,
    /// The hang timer ran out: the signal is over.
    HangExpired,
    /// No character for the whole garbage-collection window.
    Silent,
    /// Another track converged on the same signal and was at least as strong.
    Merged,
    /// Too many tracks; this was the weakest.
    Evicted,
}

/// How many tracks closed for each reason.
#[derive(Debug, Clone, Copy, PartialEq, Eq, Structural)]
pub struct CloseCounts {
    pub unconfirmed: u64,
    pub hang_expired: u64,
    pub silent: u64,
    pub merged: u64,
    pub evicted: u64,
}

impl Default for CloseCounts {
    fn default() -> (counts: Self)
        ensures
            forall|reason: CloseReason| counts.count(reason) == 0,
            counts.total() == 0,
    {
        CloseCounts { unconfirmed: 0, hang_expired: 0, silent: 0, merged: 0, evicted: 0 }
    }
}

impl CloseCounts {
    /// The counter that belongs to `reason`.
    pub open spec fn count(self, reason: CloseReason) -> int {
        match reason {
            CloseReason::Unconfirmed => self.unconfirmed as int,
            CloseReason::HangExpired => self.hang_expired as int,
            CloseReason::Silent => self.silent as int,
            CloseReason::Merged => self.merged as int,
            CloseReason::Evicted => self.evicted as int,
        }
    }

    /// All closures together.
    pub open spec fn total(self) -> int {
        self.unconfirmed + self.hang_expired + self.silent + self.merged + self.evicted
    }

    /// The counts with one more closure.
    pub open spec fn recorded(self, reason: CloseReason) -> CloseCounts {
        match reason {
            CloseReason::Unconfirmed => CloseCounts {
                unconfirmed: (self.unconfirmed + 1) as u64,
                ..self
            },
            CloseReason::HangExpired => CloseCounts {
                hang_expired: (self.hang_expired + 1) as u64,
                ..self
            },
            CloseReason::Silent => CloseCounts { silent: (self.silent + 1) as u64, ..self },
            CloseReason::Merged => CloseCounts { merged: (self.merged + 1) as u64, ..self },
            CloseReason::Evicted => CloseCounts { evicted: (self.evicted + 1) as u64, ..self },
        }
    }

    /// Count one closure.
    pub fn record(&mut self, reason: CloseReason)
        requires
            old(self).count(reason) < u64::MAX,
        ensures
            *final(self) == old(self).recorded(reason),
            final(self).count(reason) == old(self).count(reason) + 1,
            forall|other: CloseReason|
                other != reason ==> final(self).count(other) == old(self).count(other),
            final(self).total() == old(self).total() + 1,
    {
        match reason {
            CloseReason::Unconfirmed => self.unconfirmed += 1,
            CloseReason::HangExpired => self.hang_expired += 1,
            CloseReason::Silent => self.silent += 1,
            CloseReason::Merged => self.merged += 1,
            CloseReason::Evicted => self.evicted += 1,
        }
    }
}

/// What one hop did to a track.
#[derive(Debug, Clone, Copy, PartialEq, Eq, Structural)]
pub enum LifecycleEvent {
    /// Nothing to act on.
    Unchanged,
    /// CANDIDATE became ACTIVE: lease a decoder.
    Promoted,
    /// The track is over.
    Closed(CloseReason),
}

/// The mathematical state of a [`Lifecycle`].
pub ghost struct LifecycleModel {
    pub state: LifecycleState,
    pub confirm_count: nat,
    pub hang_count: nat,
    pub silent_count: nat,
    pub confirm_hops: nat,
    pub hang_hops: nat,
    pub gc_hops: nat,
}

impl LifecycleModel {
    /// A candidate born on a rise hop, which counts as the first.
    pub open spec fn born(confirm_hops: nat, hang_hops: nat, gc_hops: nat) -> Self {
        LifecycleModel {
            state: LifecycleState::Candidate,
            confirm_count: 1,
            hang_count: 0,
            silent_count: 0,
            confirm_hops,
            hang_hops,
            gc_hops,
        }
    }

    /// The limits fit the machine, and no counter that a further hop may advance stands at
    /// the end of its range. Every track that has not closed is live.
    pub open spec fn live(self) -> bool {
        &&& self.confirm_hops <= u64::MAX
        &&& self.hang_hops <= u64::MAX
        &&& self.gc_hops <= u64::MAX
        &&& self.state == LifecycleState::Candidate ==> self.confirm_count < u64::MAX
        &&& self.state == LifecycleState::Hang ==> self.hang_count < u64::MAX
        &&& self.silent_count < u64::MAX
    }

    /// Hops without a character, this hop counted.
    pub open spec fn silence_after(self, char_emitted: bool) -> nat {
        if char_emitted {
            0
        } else {
            self.silent_count + 1
        }
    }

    /// This hop ends the garbage-collection window without a character.
    pub open spec fn falls_silent(self, char_emitted: bool) -> bool {
        &&& self.state != LifecycleState::Candidate
        &&& !char_emitted
        &&& self.silent_count + 1 >= self.gc_hops
    }

    /// What a hop makes known.
    pub open spec fn event(self, rise: bool, drop: bool, char_emitted: bool) -> LifecycleEvent {
        match self.state {
            LifecycleState::Candidate => if !rise {
                LifecycleEvent::Closed(CloseReason::Unconfirmed)
            } else if self.confirm_count + 1 >= self.confirm_hops {
                LifecycleEvent::Promoted
            } else {
                LifecycleEvent::Unchanged
            },
            LifecycleState::Active => if self.falls_silent(char_emitted) {
                LifecycleEvent::Closed(CloseReason::Silent)
            } else {
                LifecycleEvent::Unchanged
            },
            LifecycleState::Hang => if self.falls_silent(char_emitted) {
                LifecycleEvent::Closed(CloseReason::Silent)
            } else if !rise && self.hang_count + 1 >= self.hang_hops {
                LifecycleEvent::Closed(CloseReason::HangExpired)
            } else {
                LifecycleEvent::Unchanged
            },
        }
    }

    /// The state after a hop.
    pub open spec fn next(self, rise: bool, drop: bool, char_emitted: bool) -> Self {
        match self.state {
            LifecycleState::Candidate => if !rise {
                self
            } else {
                LifecycleModel {
                    confirm_count: self.confirm_count + 1,
                    state: if self.confirm_count + 1 >= self.confirm_hops {
                        LifecycleState::Active
                    } else {
                        LifecycleState::Candidate
                    },
                    ..self
                }
            },
            LifecycleState::Active => {
                let quiet = LifecycleModel { silent_count: self.silence_after(char_emitted), ..self };
                if drop && !self.falls_silent(char_emitted) {
                    LifecycleModel { state: LifecycleState::Hang, hang_count: 1, ..quiet }
                } else {
                    quiet
                }
            },
            LifecycleState::Hang => {
                let quiet = LifecycleModel { silent_count: self.silence_after(char_emitted), ..self };
                if self.falls_silent(char_emitted) {
                    quiet
                } else if rise {
                    LifecycleModel { state: LifecycleState::Active, hang_count: 0, ..quiet }
                } else {
                    LifecycleModel { hang_count: self.hang_count + 1, ..quiet }
                }
            },
        }
    }

    /// The state after a character was decoded.
    pub open spec fn spoken(self) -> Self {
        LifecycleModel { silent_count: 0, ..self }
    }

    /// The state after `hops` equal hops.
    pub open spec fn after(self, rise: bool, drop: bool, char_emitted: bool, hops: nat) -> Self
        decreases hops,
    {
        if hops == 0 {
            self
        } else {
            self.after(rise, drop, char_emitted, (hops - 1) as nat).next(rise, drop, char_emitted)
        }
    }
}

/// The state machine of one track, driven hop by hop. It knows nothing of channels: the
/// caller decides which channel's thresholds feed it.
#[derive(Debug, Clone, Copy)]
pub struct Lifecycle {
    state: LifecycleState,
    confirm_count: u64,
    hang_count: u64,
    silent_count: u64,
    confirm_hops: u64,
    hang_hops: u64,
    gc_hops: u64,
}

impl View for Lifecycle {
    type V = LifecycleModel;

    closed spec fn view(&self) -> LifecycleModel {
        LifecycleModel {
            state: self.state,
            confirm_count: self.confirm_count as nat,
            hang_count: self.hang_count as nat,
            silent_count: self.silent_count as nat,
            confirm_hops: self.confirm_hops as nat,
            hang_hops: self.hang_hops as nat,
            gc_hops: self.gc_hops as nat,
        }
    }
}

impl Lifecycle {
    /// A brand-new candidate, just born on a rise hop.
    pub fn new(cfg: &DetectorConfig) -> (lc: Self)
        ensures
            lc@ == LifecycleModel::born(
                cfg.confirm_hops as nat,
                cfg.hang_hops as nat,
                cfg.gc_hops as nat,
            ),
            lc@.live(),
    {
        Lifecycle {
            state: LifecycleState::Candidate,
            confirm_count: 1,
            hang_count: 0,
            silent_count: 0,
            confirm_hops: cfg.confirm_hops,
            hang_hops: cfg.hang_hops,
            gc_hops: cfg.gc_hops,
        }
    }

    pub fn state(&self) -> (state: LifecycleState)
        ensures
            state == self@.state,
    {
        self.state
    }

    /// A character was decoded: the garbage-collection window starts over.
    pub fn note_char_decoded(&mut self)
        ensures
            final(self)@ == old(self)@.spoken(),
            old(self)@.live() ==> final(self)@.live(),
    {
        self.silent_count = 0;
    }

    /// Advance one hop. `rise` and `drop` say whether the channel that feeds the track is
    /// above the one threshold and below the other; `char_emitted` says whether a character was decoded on this hop.
    pub fn on_hop(&mut self, rise: bool, drop: bool, char_emitted: bool) -> (event: LifecycleEvent)
        requires
            old(self)@.live(),
        ensures
            event == old(self)@.event(rise, drop, char_emitted),
            final(self)@ == old(self)@.next(rise, drop, char_emitted),
            !(event is Closed) ==> final(self)@.live(),
    {
        match self.state {
            LifecycleState::Candidate => {
                if rise {
                    self.confirm_count += 1;
                    if self.confirm_count >= self.confirm_hops {
                        self.state = LifecycleState::Active;
                        return LifecycleEvent::Promoted;
                    }
                } else {
                    return LifecycleEvent::Closed(CloseReason::Unconfirmed);
                }
                LifecycleEvent::Unchanged
            },
            LifecycleState::Active => {
                if char_emitted {
                    self.silent_count = 0;
                } else {
                    self.silent_count += 1;
                    if self.silent_count >= self.gc_hops {
                        return LifecycleEvent::Closed(CloseReason::Silent);
                    }
                }
                if drop {
                    self.state = LifecycleState::Hang;
                    self.hang_count = 1;
                }
                LifecycleEvent::Unchanged
            },
            LifecycleState::Hang => {
                if char_emitted {
                    self.silent_count = 0;
                } else {
                    self.silent_count += 1;
                    if self.silent_count >= self.gc_hops {
                        return LifecycleEvent::Closed(CloseReason::Silent);
                    }
                }
                if rise {
                    self.state = LifecycleState::Active;
                    self.hang_count = 0;
                } else {
                    self.hang_count += 1;
                    if self.hang_count >= self.hang_hops {
                        return LifecycleEvent::Closed(CloseReason::HangExpired);
                    }
                }
                LifecycleEvent::Unchanged
            },
        }
    }
}

/// A candidate is promoted by its `confirm_hops`-th rise in a row, the birth hop counted,
/// and by none before it.
pub proof fn law_promotion_takes_confirm_hops(
    confirm_hops: nat,
    hang_hops: nat,
    gc_hops: nat,
    hops: nat,
    drop: bool,
    char_emitted: bool,
)
    requires
        hops + 2 <= confirm_hops,
    ensures
        ({
            let then = LifecycleModel::born(confirm_hops, hang_hops, gc_hops).after(
                true,
                drop,
                char_emitted,
                hops,
            );
            &&& then.state == LifecycleState::Candidate
            &&& then.confirm_count == hops + 1
            &&& then.confirm_hops == confirm_hops
            &&& then.event(true, drop, char_emitted) == (if hops + 2 == confirm_hops {
                LifecycleEvent::Promoted
            } else {
                LifecycleEvent::Unchanged
            })
        }),
    decreases hops,
{
    if hops > 0 {
        law_promotion_takes_confirm_hops(
            confirm_hops,
            hang_hops,
            gc_hops,
            (hops - 1) as nat,
            drop,
            char_emitted,
        );
    }
}

/// One hop without rise ends any candidate, unconfirmed.
pub proof fn law_candidate_needs_unbroken_rise(m: LifecycleModel, drop: bool, char_emitted: bool)
    requires
        m.state == LifecycleState::Candidate,
    ensures
        m.event(false, drop, char_emitted) == LifecycleEvent::Closed(CloseReason::Unconfirmed),
{
}

/// The state after hops without a character, each with its rise and its drop.
pub open spec fn after_quiet_hops(m: LifecycleModel, hops: Seq<(bool, bool)>) -> LifecycleModel
    decreases hops.len(),
{
    if hops.len() == 0 {
        m
    } else {
        after_quiet_hops(m, hops.drop_last()).next(hops.last().0, hops.last().1, false)
    }
}

/// None of these hops closes the track.
pub open spec fn stays_open(m: LifecycleModel, hops: Seq<(bool, bool)>) -> bool
    decreases hops.len(),
{
    hops.len() == 0 || stays_open(m, hops.drop_last()) && after_quiet_hops(
        m,
        hops.drop_last(),
    ).event(hops.last().0, hops.last().1, false) == LifecycleEvent::Unchanged
}

/// A confirmed track that decodes nothing closes for silence exactly `gc_hops` hops after its
/// last character, and not before, however its signal rises and drops meanwhile. Before that
/// only the end of a hang can close it.
pub proof fn law_silence_takes_gc_hops(
    m: LifecycleModel,
    hops: Seq<(bool, bool)>,
    rise: bool,
    drop: bool,
)
    requires
        m.state != LifecycleState::Candidate,
        m.silent_count + hops.len() < m.gc_hops,
        stays_open(m, hops),
    ensures
        ({
            let then = after_quiet_hops(m, hops);
            let event = then.event(rise, drop, false);
            &&& then.state != LifecycleState::Candidate
            &&& then.silent_count == m.silent_count + hops.len()
            &&& then.gc_hops == m.gc_hops
            &&& event == LifecycleEvent::Closed(CloseReason::Silent) <==> m.silent_count
                + hops.len() + 1 == m.gc_hops
            &&& event == LifecycleEvent::Closed(CloseReason::Silent) || event
                == LifecycleEvent::Closed(CloseReason::HangExpired) || event
                == LifecycleEvent::Unchanged
        }),
    decreases hops.len(),
{
    if hops.len() > 0 {
        law_silence_takes_gc_hops(m, hops.drop_last(), hops.last().0, hops.last().1);
    }
}

/// A confirmed track that keeps decoding characters is never closed for silence, whatever
/// its thresholds do.
pub proof fn law_decoding_track_is_never_silent(m: LifecycleModel, rise: bool, drop: bool)
    ensures
        m.event(rise, drop, true) != LifecycleEvent::Closed(CloseReason::Silent),
        m.next(rise, drop, true).silent_count <= m.silent_count,
        m.state != LifecycleState::Candidate ==> m.next(rise, drop, true).silent_count == 0,
{
}

/// A track in HANG whose signal stays away, while characters still drain, closes on the
/// hop that brings its hang count to `hang_hops`, and not before.
pub proof fn law_hang_expires_after_hang_hops(m: LifecycleModel, hops: nat, drop: bool)
    requires
        m.state == LifecycleState::Hang,
        m.hang_count + hops < m.hang_hops,
    ensures
        ({
            let then = m.after(false, drop, true, hops);
            &&& then.state == LifecycleState::Hang
            &&& then.hang_count == m.hang_count + hops
            &&& then.hang_hops == m.hang_hops
            &&& then.event(false, drop, true) == (if m.hang_count + hops + 1 == m.hang_hops {
                LifecycleEvent::Closed(CloseReason::HangExpired)
            } else {
                LifecycleEvent::Unchanged
            })
        }),
    decreases hops,
{
    if hops > 0 {
        law_hang_expires_after_hang_hops(m, (hops - 1) as nat, drop);
    }
}

/// A track that recovers from HANG starts its next hang from the beginning.
pub proof fn law_recovery_resets_the_hang_timer(m: LifecycleModel, char_emitted: bool)
    requires
        m.state == LifecycleState::Hang,
        m.event(true, false, char_emitted) == LifecycleEvent::Unchanged,
    ensures
        m.next(true, false, char_emitted).state == LifecycleState::Active,
        m.next(true, false, char_emitted).hang_count == 0,
{
}

/// A confirmed track whose signal is there hangs from the first hop on which the signal is
/// below the drop threshold, and from no other; a signal between the thresholds keeps it. Only
/// silence can end it before.
pub proof fn law_a_drop_begins_the_hang(
    m: LifecycleModel,
    rise: bool,
    drop: bool,
    char_emitted: bool,
)
    requires
        m.state == LifecycleState::Active,
    ensures
        ({
            let next = m.next(rise, drop, char_emitted);
            let event = m.event(rise, drop, char_emitted);
            &&& event == LifecycleEvent::Closed(CloseReason::Silent) <==> !char_emitted
                && m.silent_count + 1 >= m.gc_hops
            &&& !(event is Closed) ==> event == LifecycleEvent::Unchanged
            &&& !(event is Closed) ==> (next.state == LifecycleState::Hang <==> drop)
            &&& !(event is Closed) && !drop ==> next.state == LifecycleState::Active
            &&& next.state == LifecycleState::Hang ==> next.hang_count == 1
            &&& next.silent_count == (if char_emitted {
                0
            } else {
                m.silent_count + 1
            })
        }),
{
}

/// The state after hops with characters but without a rise, each with its drop.
pub open spec fn after_hanging(m: LifecycleModel, drops: Seq<bool>) -> LifecycleModel
    decreases drops.len(),
{
    if drops.len() == 0 {
        m
    } else {
        after_hanging(m, drops.drop_last()).next(false, drops.last(), true)
    }
}

/// The signal is over on the hop that is the `hang_hops`-th in a row without a rise, the one of
/// the drop counted, and not before, whether or not it stays below the drop threshold; a rise
/// before that takes the track back, and the next hang counts from the beginning.
pub proof fn law_a_hang_lasts_hang_hops(m: LifecycleModel, drops: Seq<bool>, drop: bool)
    requires
        m.state == LifecycleState::Active,
        drops.len() + 1 < m.hang_hops,
    ensures
        ({
            let then = after_hanging(m.next(false, true, true), drops);
            &&& then.state == LifecycleState::Hang
            &&& then.event(false, drop, true) == (if drops.len() + 2 == m.hang_hops {
                LifecycleEvent::Closed(CloseReason::HangExpired)
            } else {
                LifecycleEvent::Unchanged
            })
            &&& then.event(true, drop, true) == LifecycleEvent::Unchanged
            &&& then.next(true, drop, true).state == LifecycleState::Active
            &&& then.next(true, drop, true).next(false, true, true).hang_count == 1
            &&& then.hang_count == drops.len() + 1
            &&& then.hang_hops == m.hang_hops
        }),
    decreases drops.len(),
{
    if drops.len() > 0 {
        law_a_hang_lasts_hang_hops(m, drops.drop_last(), drops.last());
    }
}

/// A character ends the silence, whatever came before, and nothing else: a track that has just
/// decoded one closes for silence `gc_hops` hops later, and not before.
pub proof fn law_a_character_ends_the_silence(
    m: LifecycleModel,
    hops: Seq<(bool, bool)>,
    rise: bool,
    drop: bool,
)
    requires
        m.state != LifecycleState::Candidate,
        hops.len() < m.gc_hops,
        stays_open(m.spoken(), hops),
    ensures
        m.spoken().state == m.state,
        m.spoken().hang_count == m.hang_count,
        m.spoken().hang_hops == m.hang_hops,
        after_quiet_hops(m.spoken(), hops).event(rise, drop, false) == LifecycleEvent::Closed(
            CloseReason::Silent,
        ) <==> hops.len() + 1 == m.gc_hops,
{
    law_silence_takes_gc_hops(m.spoken(), hops, rise, drop);
}

/// A track that was confirmed without having decoded anything has all of `gc_hops` before it:
/// the hops that it took to be confirmed are no silence, and no hang has begun.
pub proof fn law_silence_counts_from_the_confirmation(
    confirm_hops: nat,
    hang_hops: nat,
    gc_hops: nat,
    hops: nat,
    drop: bool,
    char_emitted: bool,
)
    requires
        hops < confirm_hops || hops == 1,
    ensures
        ({
            let then = LifecycleModel::born(confirm_hops, hang_hops, gc_hops).after(
                true,
                drop,
                char_emitted,
                hops,
            );
            &&& then.state == (if hops > 0 && hops + 1 >= confirm_hops {
                LifecycleState::Active
            } else {
                LifecycleState::Candidate
            })
            &&& then.silent_count == 0
            &&& then.hang_count == 0
            &&& then.confirm_count == hops + 1
            &&& then.confirm_hops == confirm_hops
            &&& then.hang_hops == hang_hops
            &&& then.gc_hops == gc_hops
        }),
    decreases hops,
{
    if hops > 1 {
        law_silence_counts_from_the_confirmation(
            confirm_hops,
            hang_hops,
            gc_hops,
            (hops - 1) as nat,
            drop,
            char_emitted,
        );
    } else if hops == 1 {
        let born = LifecycleModel::born(confirm_hops, hang_hops, gc_hops);
        assert(born.after(true, drop, char_emitted, 0) == born);
    }
}

/// Every reason has a counter of its own, under its name.
pub proof fn law_every_reason_has_its_counter(c: CloseCounts)
    requires
        c.total() < u64::MAX,
    ensures
        c.recorded(CloseReason::Unconfirmed) == (CloseCounts {
            unconfirmed: (c.unconfirmed + 1) as u64,
            ..c
        }),
        c.recorded(CloseReason::HangExpired) == (CloseCounts {
            hang_expired: (c.hang_expired + 1) as u64,
            ..c
        }),
        c.recorded(CloseReason::Silent) == (CloseCounts { silent: (c.silent + 1) as u64, ..c }),
        c.recorded(CloseReason::Merged) == (CloseCounts { merged: (c.merged + 1) as u64, ..c }),
        c.recorded(CloseReason::Evicted) == (CloseCounts { evicted: (c.evicted + 1) as u64, ..c }),
        forall|reason: CloseReason|
            (#[trigger] c.recorded(reason)).unconfirmed + c.recorded(reason).hang_expired
                + c.recorded(reason).silent + c.recorded(reason).merged + c.recorded(reason).evicted
                == c.unconfirmed + c.hang_expired + c.silent + c.merged + c.evicted + 1,
{
}

} // verus!
