//! A KiwiSDR receiver as a source of samples: how a connection is kept going, when it is
//! given up, and how it is taken up again.
//!
//! [`KiwiSession`] says what to do next: send something, read a frame, run the resampler,
//! wait, connect again, or hand out samples. Whoever does it tells the outcome.

use crate::dyadic::Dyadic;
use crate::kiwi_wire::{ack_command, keepalive_command, IqPair, TARGET_RATE_HZ};
use crate::level::Single;
use crate::report::Sample;
use vstd::arithmetic::power2::*;
use vstd::prelude::*;

verus! {

/// Samples that the resampler is built to take at once.
pub const RESAMPLER_CHUNK: usize = 16_384;

/// How long one read of the socket waits.
pub const READ_TIMEOUT_NS: u64 = 250_000_000;

/// This many reads in a row without a frame end the connection.
pub const MAX_CONSECUTIVE_TIMEOUTS: u32 = 40;

/// The receiver stops sending where it does not hear from us this often.
pub const KEEPALIVE_INTERVAL_NS: u64 = 1_000_000_000;

/// No frame is longer than this.
pub const MAX_WS_FRAME_BYTES: usize = 65_536;

/// This many frames in a row that are good for nothing end the connection.
pub const MAX_CONSECUTIVE_UNUSABLE_FRAMES: u32 = 10_000;

/// No more of an outage than this is made up for with silence.
pub const MAX_ZERO_FILL_NS: u64 = 60_000_000_000;

/// What happened on a source.
#[derive(Debug, Clone, Copy, PartialEq, Eq, Structural)]
pub struct KiwiStats {
    /// Frames that were good for nothing.
    pub unusable_frames: u64,
    /// Connections that were lost.
    pub connection_failures: u64,
    /// Connections that were taken up again.
    pub reconnects: u64,
    /// Samples of silence that made up for outages.
    pub zero_filled_samples: u64,
}

impl Default for KiwiStats {
    fn default() -> (s: KiwiStats)
        ensures
            s == no_stats(),
    {
        KiwiStats {
            unusable_frames: 0,
            connection_failures: 0,
            reconnects: 0,
            zero_filled_samples: 0,
        }
    }
}

/// Nothing has happened.
pub open spec fn no_stats() -> KiwiStats {
    KiwiStats { unusable_frames: 0, connection_failures: 0, reconnects: 0, zero_filled_samples: 0 }
}

/// How often, and how fast, a lost connection is tried again.
#[derive(Debug, Clone, Copy, PartialEq, Eq, Structural)]
pub struct ReconnectPolicy {
    pub max_attempts: u32,
    pub backoff_base_ns: u64,
    pub backoff_max_ns: u64,
    pub connect_timeout_ns: u64,
}

impl Default for ReconnectPolicy {
    fn default() -> (p: ReconnectPolicy)
        ensures
            p.max_attempts == 4,
            p.backoff_base_ns == 500_000_000,
            p.backoff_max_ns == 2_000_000_000,
            p.connect_timeout_ns == 5_000_000_000,
    {
        ReconnectPolicy {
            max_attempts: 4,
            backoff_base_ns: 500_000_000,
            backoff_max_ns: 2_000_000_000,
            connect_timeout_ns: 5_000_000_000,
        }
    }
}

/// The wait before attempt `attempt`, counted from zero: twice as long each time, up to the
/// longest.
pub open spec fn backoff(policy: ReconnectPolicy, attempt: u32) -> int {
    let factor = if attempt < 32 {
        pow2(attempt as nat) as int
    } else {
        u32::MAX as int
    };
    if policy.backoff_base_ns * factor < policy.backoff_max_ns {
        policy.backoff_base_ns * factor
    } else {
        policy.backoff_max_ns as int
    }
}

/// The wait before an attempt to connect again.
pub fn backoff_for_attempt(policy: ReconnectPolicy, attempt: u32) -> (ns: u64)
    ensures
        ns == backoff(policy, attempt),
{
    let mut factor: u64 = 1;
    let mut k: u32 = 0;
    proof {
        lemma2_to64();
    }
    if attempt < 32 {
        while k < attempt
            invariant
                k <= attempt < 32,
                factor == pow2(k as nat),
                factor <= 0x8000_0000,
                pow2(31) == 0x8000_0000,
            decreases attempt - k,
        {
            proof {
                lemma_pow2_unfold((k + 1) as nat);
                if k + 1 < 31 {
                    lemma_pow2_strictly_increases((k + 1) as nat, 31);
                }
            }
            factor = factor * 2;
            k = k + 1;
        }
    } else {
        factor = u32::MAX as u64;
    }
    proof {
        assert(0 <= policy.backoff_base_ns * factor <= u64::MAX * 0xFFFF_FFFF) by (nonlinear_arith)
            requires
                0 <= policy.backoff_base_ns <= u64::MAX,
                0 <= factor <= 0xFFFF_FFFF,
        ;
    }
    let long: u128 = policy.backoff_base_ns as u128 * factor as u128;
    if long < policy.backoff_max_ns as u128 {
        long as u64
    } else {
        policy.backoff_max_ns
    }
}

/// How a connection was lost.
#[derive(Debug, Clone, Copy, PartialEq, Eq, Structural)]
pub enum LostCause {
    /// A command could not be sent.
    Send,
    /// A read failed.
    Read,
    /// Nothing came for too long.
    Silence,
    /// Nothing usable came for too long.
    Unusable,
    /// The receiver closed it.
    Closed,
}

/// Why a read of the source fails.
#[derive(Debug, Clone, Copy, PartialEq, Eq, Structural)]
pub enum KiwiFailure {
    /// The connection was lost, and all attempts are used up.
    Unrecoverable(LostCause),
    /// The resampler refused its work, which no new connection would help.
    Resampler,
}

/// What came of what was to be done.
#[derive(Debug)]
pub enum KiwiEvent {
    /// The caller wants up to so many samples.
    Wanted(usize),
    /// The command is sent.
    Sent,
    /// The command could not be sent.
    SendFailed,
    /// The read brought nothing in time.
    Silence,
    /// The read failed for good.
    ReadFailed,
    /// The frame held samples.
    Samples(Vec<IqPair>),
    /// The frame held parameters; of these, the audio rate and the sample rate count.
    Rates(Option<Dyadic>, Option<Dyadic>),
    /// The frame was good for nothing.
    Unusable,
    /// The receiver closed the connection.
    Ended,
    /// The resampler next takes so many samples.
    Needs(usize),
    /// The resampler took so many samples and gave these.
    Resampled(usize, Vec<Sample>),
    /// The resampler failed.
    ResamplerFailed,
    /// The wait is over.
    Slept,
    /// There is a new connection, and a resampler for its rate.
    Connected,
    /// There is no new connection.
    ConnectFailed,
    /// There is a new connection, but no resampler for its rate.
    RateRefused,
}

/// What is to be done.
#[derive(Debug)]
pub enum KiwiAction {
    /// Hand these samples to the caller; the read is over.
    Deliver(Vec<Sample>),
    /// The caller has no room for samples: hand out nothing. The stream has not ended.
    NoRoom,
    /// Send this.
    Send(String),
    /// Read a frame.
    ReadFrame,
    /// Ask the resampler how many samples it takes next.
    AskResampler,
    /// Resample these.
    Resample(Vec<IqPair>),
    /// Wait for so many nanoseconds.
    Sleep(u64),
    /// Connect again.
    Connect,
    /// Tell the caller that the read failed; the read is over.
    Fail(KiwiFailure),
}

/// What is to be done.
#[verifier::ext_equal]
pub ghost enum ActionModel {
    Deliver(Seq<Sample>),
    NoRoom,
    Send(Seq<char>),
    ReadFrame,
    AskResampler,
    Resample(Seq<IqPair>),
    Sleep(int),
    Connect,
    Fail(KiwiFailure),
}

impl KiwiAction {
    /// The action.
    pub open spec fn view(&self) -> ActionModel {
        match *self {
            KiwiAction::Deliver(v) => ActionModel::Deliver(v@),
            KiwiAction::NoRoom => ActionModel::NoRoom,
            KiwiAction::Send(s) => ActionModel::Send(s@),
            KiwiAction::ReadFrame => ActionModel::ReadFrame,
            KiwiAction::AskResampler => ActionModel::AskResampler,
            KiwiAction::Resample(v) => ActionModel::Resample(v@),
            KiwiAction::Sleep(ns) => ActionModel::Sleep(ns as int),
            KiwiAction::Connect => ActionModel::Connect,
            KiwiAction::Fail(f) => ActionModel::Fail(f),
        }
    }
}

/// What a session is waiting for.
#[derive(Debug, Clone, Copy, PartialEq, Eq, Structural)]
pub enum KiwiPhase {
    /// A caller.
    Idle,
    /// That the receiver is kept awake.
    Keepalive,
    /// A frame.
    Reading,
    /// That the audio rate is accepted.
    Acking,
    /// The resampler's word on how much it takes.
    Measuring,
    /// The resampler.
    Resampling,
    /// The end of a wait.
    BackingOff,
    /// A new connection.
    Connecting,
}

/// A session with a receiver.
pub struct KiwiSession {
    phase: KiwiPhase,
    policy: ReconnectPolicy,
    wanted: usize,
    raw: Vec<IqPair>,
    pending: Vec<Sample>,
    owed: u64,
    attempts: u32,
    stats: KiwiStats,
    last_keepalive: u64,
    outage_started: u64,
    cause: LostCause,
    timeouts: u32,
    unusable: u32,
}

/// What a session is.
#[verifier::ext_equal]
pub ghost struct KiwiModel {
    pub phase: KiwiPhase,
    pub policy: ReconnectPolicy,
    /// How many samples the caller wants.
    pub wanted: int,
    /// Samples that wait for the resampler.
    pub raw: Seq<IqPair>,
    /// Samples that wait for the caller.
    pub pending: Seq<Sample>,
    /// Samples of silence that are still owed.
    pub owed: int,
    /// Attempts since the last samples came.
    pub attempts: int,
    pub stats: KiwiStats,
    pub last_keepalive: int,
    pub outage_started: int,
    /// How the connection was lost the last time.
    pub cause: LostCause,
    pub timeouts: int,
    pub unusable: int,
}

/// A sample of silence.
pub open spec fn silence() -> Sample {
    Sample { re: Single { bits: 0 }, im: Single { bits: 0 } }
}

/// The samples that make up for an outage.
pub open spec fn made_up(outage_ns: int) -> int {
    let counted = if outage_ns < 0 {
        0
    } else if outage_ns < MAX_ZERO_FILL_NS {
        outage_ns
    } else {
        MAX_ZERO_FILL_NS as int
    };
    counted * 96_000 / 1_000_000_000
}

impl KiwiModel {
    /// Just connected.
    pub open spec fn fresh(policy: ReconnectPolicy, now: int) -> KiwiModel {
        KiwiModel {
            phase: KiwiPhase::Idle,
            policy,
            wanted: 0,
            raw: Seq::empty(),
            pending: Seq::empty(),
            owed: 0,
            attempts: 0,
            stats: no_stats(),
            last_keepalive: now,
            outage_started: now,
            cause: LostCause::Closed,
            timeouts: 0,
            unusable: 0,
        }
    }

    /// No bound has been reached, and while a frame is awaited nothing waits for the caller.
    pub open spec fn wf(self) -> bool {
        &&& 0 <= self.timeouts < MAX_CONSECUTIVE_TIMEOUTS
        &&& 0 <= self.unusable < MAX_CONSECUTIVE_UNUSABLE_FRAMES
        &&& 0 <= self.attempts <= self.policy.max_attempts
        &&& 0 <= self.owed
        &&& !(self.phase is Idle) ==> self.wanted > 0
        &&& self.phase is BackingOff ==> self.attempts < self.policy.max_attempts
        &&& (self.phase is Keepalive || self.phase is Reading || self.phase is Acking)
            ==> self.pending.len() == 0
    }

    /// The counters can take one more of everything.
    pub open spec fn has_room(self) -> bool {
        &&& self.stats.unusable_frames < u64::MAX
        &&& self.stats.connection_failures < u64::MAX
        &&& self.stats.reconnects < u64::MAX
        &&& self.stats.zero_filled_samples + self.owed + made_up(MAX_ZERO_FILL_NS as int)
            <= u64::MAX
    }

    /// The event answers what the session is waiting for.
    pub open spec fn expects(self, event: KiwiEvent) -> bool {
        match event {
            KiwiEvent::Wanted(_) => self.phase is Idle,
            KiwiEvent::Sent => self.phase is Keepalive || self.phase is Acking,
            KiwiEvent::SendFailed => self.phase is Keepalive || self.phase is Acking,
            KiwiEvent::Silence => self.phase is Reading,
            KiwiEvent::ReadFailed => self.phase is Reading,
            KiwiEvent::Samples(_) => self.phase is Reading,
            KiwiEvent::Rates(_, _) => self.phase is Reading,
            KiwiEvent::Unusable => self.phase is Reading,
            KiwiEvent::Ended => self.phase is Reading,
            KiwiEvent::Needs(_) => self.phase is Measuring,
            KiwiEvent::Resampled(used, _) => self.phase is Resampling && used <= self.raw.len(),
            KiwiEvent::ResamplerFailed => self.phase is Measuring || self.phase is Resampling,
            KiwiEvent::Slept => self.phase is BackingOff,
            KiwiEvent::Connected => self.phase is Connecting,
            KiwiEvent::ConnectFailed => self.phase is Connecting,
            KiwiEvent::RateRefused => self.phase is Connecting,
        }
    }

    /// It is time to keep the receiver awake.
    pub open spec fn keepalive_due(self, now: int) -> bool {
        now - self.last_keepalive >= KEEPALIVE_INTERVAL_NS
    }

    /// Hands out what waits for the caller, the oldest first.
    pub open spec fn deliver_pending(self) -> (KiwiModel, ActionModel) {
        let n = if self.pending.len() < self.wanted {
            self.pending.len() as int
        } else {
            self.wanted
        };
        (
            KiwiModel { phase: KiwiPhase::Idle, pending: self.pending.skip(n), ..self },
            ActionModel::Deliver(self.pending.take(n)),
        )
    }

    /// Hands out silence that is owed.
    pub open spec fn deliver_silence(self) -> (KiwiModel, ActionModel) {
        let n = if self.owed < self.wanted {
            self.owed
        } else {
            self.wanted
        };
        (
            KiwiModel {
                phase: KiwiPhase::Idle,
                owed: self.owed - n,
                stats: KiwiStats {
                    zero_filled_samples: (self.stats.zero_filled_samples + n) as u64,
                    ..self.stats
                },
                ..self
            },
            ActionModel::Deliver(Seq::new(n as nat, |k: int| silence())),
        )
    }

    /// The next turn of a caller: what waits, then silence, then a frame.
    pub open spec fn caller_turn(self, now: int) -> (KiwiModel, ActionModel) {
        if self.pending.len() > 0 {
            self.deliver_pending()
        } else if self.owed > 0 {
            self.deliver_silence()
        } else {
            (KiwiModel { timeouts: 0, unusable: 0, ..self }).frame_turn(now)
        }
    }

    /// The next turn of the wait for a frame.
    pub open spec fn frame_turn(self, now: int) -> (KiwiModel, ActionModel) {
        if self.pending.len() > 0 {
            self.deliver_pending()
        } else if self.keepalive_due(now) {
            (
                KiwiModel { phase: KiwiPhase::Keepalive, ..self },
                ActionModel::Send("SET keepalive"@),
            )
        } else {
            (KiwiModel { phase: KiwiPhase::Reading, ..self }, ActionModel::ReadFrame)
        }
    }

    /// A frame was good for nothing.
    pub open spec fn unusable_turn(self, now: int) -> (KiwiModel, ActionModel) {
        let m = KiwiModel {
            unusable: self.unusable + 1,
            stats: KiwiStats {
                unusable_frames: (self.stats.unusable_frames + 1) as u64,
                ..self.stats
            },
            ..self
        };
        if m.unusable >= MAX_CONSECUTIVE_UNUSABLE_FRAMES {
            m.lost_turn(LostCause::Unusable, now)
        } else {
            m.frame_turn(now)
        }
    }

    /// The connection is lost.
    pub open spec fn lost_turn(self, cause: LostCause, now: int) -> (KiwiModel, ActionModel) {
        (KiwiModel {
            raw: Seq::empty(),
            outage_started: now,
            cause,
            timeouts: 0,
            unusable: 0,
            stats: KiwiStats {
                connection_failures: (self.stats.connection_failures + 1) as u64,
                ..self.stats
            },
            ..self
        }).attempt_turn()
    }

    /// The next attempt to connect, if one is left.
    pub open spec fn attempt_turn(self) -> (KiwiModel, ActionModel) {
        if self.attempts >= self.policy.max_attempts {
            (
                KiwiModel { phase: KiwiPhase::Idle, ..self },
                ActionModel::Fail(KiwiFailure::Unrecoverable(self.cause)),
            )
        } else {
            let wait = backoff(self.policy, self.attempts as u32);
            if wait > 0 {
                (KiwiModel { phase: KiwiPhase::BackingOff, ..self }, ActionModel::Sleep(wait))
            } else {
                self.connect_turn()
            }
        }
    }

    /// Connects now.
    pub open spec fn connect_turn(self) -> (KiwiModel, ActionModel) {
        (
            KiwiModel { phase: KiwiPhase::Connecting, attempts: self.attempts + 1, ..self },
            ActionModel::Connect,
        )
    }

    /// The read failed for a reason that no new connection would help.
    pub open spec fn fatal_turn(self) -> (KiwiModel, ActionModel) {
        (
            KiwiModel { phase: KiwiPhase::Idle, ..self },
            ActionModel::Fail(KiwiFailure::Resampler),
        )
    }

    /// The next state, and what is to be done, after an event at `now`.
    pub open spec fn step(self, event: KiwiEvent, now: int) -> (KiwiModel, ActionModel) {
        match event {
            KiwiEvent::Wanted(max) => if max == 0 {
                (self, ActionModel::NoRoom)
            } else {
                (KiwiModel { wanted: max as int, ..self }).caller_turn(now)
            },
            KiwiEvent::Sent => if self.phase is Keepalive {
                (
                    KiwiModel { phase: KiwiPhase::Reading, last_keepalive: now, ..self },
                    ActionModel::ReadFrame,
                )
            } else {
                (KiwiModel { unusable: 0, ..self }).frame_turn(now)
            },
            KiwiEvent::SendFailed => self.lost_turn(LostCause::Send, now),
            KiwiEvent::Silence => {
                let m = KiwiModel { timeouts: self.timeouts + 1, ..self };
                if m.timeouts >= MAX_CONSECUTIVE_TIMEOUTS {
                    m.lost_turn(LostCause::Silence, now)
                } else {
                    m.frame_turn(now)
                }
            },
            KiwiEvent::ReadFailed => self.lost_turn(LostCause::Read, now),
            KiwiEvent::Samples(v) => {
                let m = KiwiModel { timeouts: 0, ..self };
                if v@.len() == 0 {
                    m.unusable_turn(now)
                } else {
                    (
                        KiwiModel { phase: KiwiPhase::Measuring, raw: self.raw + v@, ..m },
                        ActionModel::AskResampler,
                    )
                }
            },
            KiwiEvent::Rates(audio, sample) => {
                let m = KiwiModel { timeouts: 0, ..self };
                match audio {
                    Some(rate) => (
                        KiwiModel { phase: KiwiPhase::Acking, ..m },
                        ActionModel::Send(crate::kiwi_wire::ack_text(rate.as_i64())),
                    ),
                    None => if sample is Some {
                        (KiwiModel { unusable: 0, ..m }).frame_turn(now)
                    } else {
                        m.unusable_turn(now)
                    },
                }
            },
            KiwiEvent::Unusable => (KiwiModel { timeouts: 0, ..self }).unusable_turn(now),
            KiwiEvent::Ended => (KiwiModel { timeouts: 0, ..self }).lost_turn(
                LostCause::Closed,
                now,
            ),
            KiwiEvent::Needs(need) => if self.raw.len() < need {
                (KiwiModel { unusable: 0, attempts: 0, ..self }).frame_turn(now)
            } else {
                (
                    KiwiModel { phase: KiwiPhase::Resampling, ..self },
                    ActionModel::Resample(self.raw.take(need as int)),
                )
            },
            KiwiEvent::Resampled(used, out) => (
                KiwiModel {
                    phase: KiwiPhase::Measuring,
                    raw: self.raw.skip(used as int),
                    pending: self.pending + out@,
                    ..self
                },
                ActionModel::AskResampler,
            ),
            KiwiEvent::ResamplerFailed => self.fatal_turn(),
            KiwiEvent::Slept => self.connect_turn(),
            KiwiEvent::Connected => (KiwiModel {
                last_keepalive: now,
                owed: self.owed + made_up(now - self.outage_started),
                stats: KiwiStats { reconnects: (self.stats.reconnects + 1) as u64, ..self.stats },
                ..self
            }).caller_turn(now),
            KiwiEvent::ConnectFailed => self.attempt_turn(),
            KiwiEvent::RateRefused => self.fatal_turn(),
        }
    }
}

impl KiwiSession {
    /// What the session is.
    pub closed spec fn view(&self) -> KiwiModel {
        KiwiModel {
            phase: self.phase,
            policy: self.policy,
            wanted: self.wanted as int,
            raw: self.raw@,
            pending: self.pending@,
            owed: self.owed as int,
            attempts: self.attempts as int,
            stats: self.stats,
            last_keepalive: self.last_keepalive as int,
            outage_started: self.outage_started as int,
            cause: self.cause,
            timeouts: self.timeouts as int,
            unusable: self.unusable as int,
        }
    }

    /// A session that has just been connected.
    pub fn new(policy: ReconnectPolicy, now: u64) -> (s: KiwiSession)
        ensures
            s@.wf(),
            s@ == KiwiModel::fresh(policy, now as int),
    {
        KiwiSession {
            phase: KiwiPhase::Idle,
            policy,
            wanted: 0,
            raw: Vec::new(),
            pending: Vec::new(),
            owed: 0,
            attempts: 0,
            stats: KiwiStats {
                unusable_frames: 0,
                connection_failures: 0,
                reconnects: 0,
                zero_filled_samples: 0,
            },
            last_keepalive: now,
            outage_started: now,
            cause: LostCause::Closed,
            timeouts: 0,
            unusable: 0,
        }
    }

    /// What happened so far.
    pub fn stats(&self) -> (s: KiwiStats)
        ensures
            s == self@.stats,
    {
        self.stats
    }

    /// What the session is waiting for.
    pub fn phase(&self) -> (p: KiwiPhase)
        ensures
            p == self@.phase,
    {
        self.phase
    }

    /// Takes note of an event at `now`, and says what is to be done next.
    pub fn next(&mut self, event: KiwiEvent, now: u64) -> (action: KiwiAction)
        requires
            old(self)@.wf(),
            old(self)@.has_room(),
            old(self)@.expects(event),
        ensures
            final(self)@.wf(),
            (final(self)@, action@) == old(self)@.step(event, now as int),
    {
        match event {
            KiwiEvent::Wanted(max) => {
                if max == 0 {
                    return KiwiAction::NoRoom;
                }
                self.wanted = max;
                self.caller_turn(now)
            },
            KiwiEvent::Sent => match self.phase {
                KiwiPhase::Keepalive => {
                    self.last_keepalive = now;
                    self.phase = KiwiPhase::Reading;
                    KiwiAction::ReadFrame
                },
                _ => {
                    self.unusable = 0;
                    self.frame_turn(now)
                },
            },
            KiwiEvent::SendFailed => self.lost_turn(LostCause::Send, now),
            KiwiEvent::Silence => {
                if self.timeouts + 1 >= MAX_CONSECUTIVE_TIMEOUTS {
                    self.lost_turn(LostCause::Silence, now)
                } else {
                    self.timeouts = self.timeouts + 1;
                    self.frame_turn(now)
                }
            },
            KiwiEvent::ReadFailed => self.lost_turn(LostCause::Read, now),
            KiwiEvent::Samples(v) => {
                self.timeouts = 0;
                if v.len() == 0 {
                    self.unusable_turn(now)
                } else {
                    let mut v = v;
                    self.raw.append(&mut v);
                    self.phase = KiwiPhase::Measuring;
                    KiwiAction::AskResampler
                }
            },
            KiwiEvent::Rates(audio, sample) => {
                self.timeouts = 0;
                match audio {
                    Some(rate) => {
                        self.phase = KiwiPhase::Acking;
                        KiwiAction::Send(ack_command(rate.to_i64()))
                    },
                    None => match sample {
                        Some(_) => {
                            self.unusable = 0;
                            self.frame_turn(now)
                        },
                        None => self.unusable_turn(now),
                    },
                }
            },
            KiwiEvent::Unusable => {
                self.timeouts = 0;
                self.unusable_turn(now)
            },
            KiwiEvent::Ended => {
                self.timeouts = 0;
                self.lost_turn(LostCause::Closed, now)
            },
            KiwiEvent::Needs(need) => {
                if self.raw.len() < need {
                    self.unusable = 0;
                    self.attempts = 0;
                    self.frame_turn(now)
                } else {
                    self.phase = KiwiPhase::Resampling;
                    KiwiAction::Resample(self.raw_front(need))
                }
            },
            KiwiEvent::Resampled(used, out) => {
                let mut rest: Vec<IqPair> = self.raw.split_off(used);
                std::mem::swap(&mut rest, &mut self.raw);
                let mut out = out;
                self.pending.append(&mut out);
                self.phase = KiwiPhase::Measuring;
                assert(self@.raw =~= old(self)@.raw.skip(used as int));
                KiwiAction::AskResampler
            },
            KiwiEvent::ResamplerFailed => self.fatal_turn(),
            KiwiEvent::Slept => self.connect_turn(),
            KiwiEvent::Connected => {
                let outage: u64 = if now > self.outage_started {
                    now - self.outage_started
                } else {
                    0
                };
                let counted: u64 = if outage < MAX_ZERO_FILL_NS {
                    outage
                } else {
                    MAX_ZERO_FILL_NS
                };
                let rate: u128 = TARGET_RATE_HZ as u128;
                assert(counted * rate <= 60_000_000_000 * 96_000) by (nonlinear_arith)
                    requires
                        counted <= 60_000_000_000,
                        rate == 96_000,
                ;
                let owed: u64 = (counted as u128 * rate / 1_000_000_000) as u64;
                assert(owed == made_up(now - self.outage_started));
                assert(owed <= made_up(MAX_ZERO_FILL_NS as int));
                self.last_keepalive = now;
                self.owed = self.owed + owed;
                self.stats.reconnects = self.stats.reconnects + 1;
                self.caller_turn(now)
            },
            KiwiEvent::ConnectFailed => self.attempt_turn(),
            KiwiEvent::RateRefused => self.fatal_turn(),
        }
    }

    fn raw_front(&self, n: usize) -> (front: Vec<IqPair>)
        requires
            n <= self@.raw.len(),
        ensures
            front@ == self@.raw.take(n as int),
    {
        let mut front: Vec<IqPair> = Vec::new();
        let mut k: usize = 0;
        while k < n
            invariant
                k <= n <= self@.raw.len(),
                front@ == self@.raw.take(k as int),
            decreases n - k,
        {
            front.push(self.raw[k]);
            k = k + 1;
            assert(front@ =~= self@.raw.take(k as int));
        }
        front
    }

    fn deliver_pending(&mut self) -> (action: KiwiAction)
        requires
            (KiwiModel { phase: KiwiPhase::Idle, ..old(self)@ }).wf(),
            old(self)@.wanted > 0,
        ensures
            final(self)@.wf(),
            (final(self)@, action@) == old(self)@.deliver_pending(),
    {
        let n: usize = if self.pending.len() < self.wanted {
            self.pending.len()
        } else {
            self.wanted
        };
        let mut rest: Vec<Sample> = self.pending.split_off(n);
        std::mem::swap(&mut rest, &mut self.pending);
        self.phase = KiwiPhase::Idle;
        assert(self@.pending =~= old(self)@.pending.skip(n as int));
        assert(rest@ =~= old(self)@.pending.take(n as int));
        KiwiAction::Deliver(rest)
    }

    fn deliver_silence(&mut self) -> (action: KiwiAction)
        requires
            (KiwiModel { phase: KiwiPhase::Idle, ..old(self)@ }).wf(),
            old(self)@.wanted > 0,
            old(self)@.stats.zero_filled_samples + old(self)@.owed <= u64::MAX,
        ensures
            final(self)@.wf(),
            (final(self)@, action@) == old(self)@.deliver_silence(),
    {
        let n: u64 = if self.owed < self.wanted as u64 {
            self.owed
        } else {
            self.wanted as u64
        };
        let mut out: Vec<Sample> = Vec::new();
        let mut k: u64 = 0;
        while k < n
            invariant
                k <= n,
                out@ == Seq::new(k as nat, |j: int| silence()),
            decreases n - k,
        {
            out.push(Sample { re: Single { bits: 0 }, im: Single { bits: 0 } });
            k = k + 1;
            assert(out@ =~= Seq::new(k as nat, |j: int| silence()));
        }
        self.owed = self.owed - n;
        self.stats.zero_filled_samples = self.stats.zero_filled_samples + n;
        self.phase = KiwiPhase::Idle;
        KiwiAction::Deliver(out)
    }

    fn caller_turn(&mut self, now: u64) -> (action: KiwiAction)
        requires
            (KiwiModel { phase: KiwiPhase::Idle, ..old(self)@ }).wf(),
            old(self)@.wanted > 0,
            old(self)@.stats.zero_filled_samples + old(self)@.owed <= u64::MAX,
        ensures
            final(self)@.wf(),
            (final(self)@, action@) == old(self)@.caller_turn(now as int),
    {
        if self.pending.len() > 0 {
            self.deliver_pending()
        } else if self.owed > 0 {
            self.deliver_silence()
        } else {
            self.timeouts = 0;
            self.unusable = 0;
            self.frame_turn(now)
        }
    }

    fn frame_turn(&mut self, now: u64) -> (action: KiwiAction)
        requires
            (KiwiModel { phase: KiwiPhase::Idle, ..old(self)@ }).wf(),
            old(self)@.wanted > 0,
        ensures
            final(self)@.wf(),
            (final(self)@, action@) == old(self)@.frame_turn(now as int),
    {
        if self.pending.len() > 0 {
            self.deliver_pending()
        } else if now >= self.last_keepalive && now - self.last_keepalive
            >= KEEPALIVE_INTERVAL_NS {
            self.phase = KiwiPhase::Keepalive;
            KiwiAction::Send(keepalive_command())
        } else {
            self.phase = KiwiPhase::Reading;
            KiwiAction::ReadFrame
        }
    }

    fn unusable_turn(&mut self, now: u64) -> (action: KiwiAction)
        requires
            (KiwiModel { phase: KiwiPhase::Idle, ..old(self)@ }).wf(),
            old(self)@.wanted > 0,
            old(self)@.has_room(),
        ensures
            final(self)@.wf(),
            (final(self)@, action@) == old(self)@.unusable_turn(now as int),
    {
        self.stats.unusable_frames = self.stats.unusable_frames + 1;
        if self.unusable + 1 >= MAX_CONSECUTIVE_UNUSABLE_FRAMES {
            self.lost_turn(LostCause::Unusable, now)
        } else {
            self.unusable = self.unusable + 1;
            self.frame_turn(now)
        }
    }

    fn lost_turn(&mut self, cause: LostCause, now: u64) -> (action: KiwiAction)
        requires
            (KiwiModel { phase: KiwiPhase::Idle, ..old(self)@ }).wf(),
            old(self)@.wanted > 0,
            old(self)@.stats.connection_failures < u64::MAX,
        ensures
            final(self)@.wf(),
            (final(self)@, action@) == old(self)@.lost_turn(cause, now as int),
    {
        self.stats.connection_failures = self.stats.connection_failures + 1;
        self.raw.clear();
        self.outage_started = now;
        self.cause = cause;
        self.timeouts = 0;
        self.unusable = 0;
        assert(self@.raw =~= Seq::empty());
        self.attempt_turn()
    }

    fn attempt_turn(&mut self) -> (action: KiwiAction)
        requires
            (KiwiModel { phase: KiwiPhase::Idle, ..old(self)@ }).wf(),
            old(self)@.wanted > 0,
        ensures
            final(self)@.wf(),
            (final(self)@, action@) == old(self)@.attempt_turn(),
    {
        if self.attempts >= self.policy.max_attempts {
            self.phase = KiwiPhase::Idle;
            return KiwiAction::Fail(KiwiFailure::Unrecoverable(self.cause));
        }
        let wait: u64 = backoff_for_attempt(self.policy, self.attempts);
        if wait > 0 {
            self.phase = KiwiPhase::BackingOff;
            KiwiAction::Sleep(wait)
        } else {
            self.connect_turn()
        }
    }

    fn connect_turn(&mut self) -> (action: KiwiAction)
        requires
            (KiwiModel { phase: KiwiPhase::Idle, ..old(self)@ }).wf(),
            old(self)@.wanted > 0,
            old(self)@.attempts < old(self)@.policy.max_attempts,
        ensures
            final(self)@.wf(),
            (final(self)@, action@) == old(self)@.connect_turn(),
    {
        self.attempts = self.attempts + 1;
        self.phase = KiwiPhase::Connecting;
        KiwiAction::Connect
    }

    fn fatal_turn(&mut self) -> (action: KiwiAction)
        requires
            (KiwiModel { phase: KiwiPhase::Idle, ..old(self)@ }).wf(),
        ensures
            final(self)@.wf(),
            (final(self)@, action@) == old(self)@.fatal_turn(),
    {
        self.phase = KiwiPhase::Idle;
        KiwiAction::Fail(KiwiFailure::Resampler)
    }
}

/// Waits grow, up to the longest and no further.
pub proof fn law_waits_grow_to_a_limit(policy: ReconnectPolicy, early: u32, late: u32)
    requires
        early <= late,
    ensures
        0 <= backoff(policy, early) <= backoff(policy, late) <= policy.backoff_max_ns,
        backoff(policy, 0) == (if policy.backoff_base_ns < policy.backoff_max_ns {
            policy.backoff_base_ns
        } else {
            policy.backoff_max_ns
        }),
{
    lemma2_to64();
    let factor = |a: u32|
        if a < 32 {
            pow2(a as nat) as int
        } else {
            u32::MAX as int
        };
    if early < 32 {
        lemma_pow2_pos(early as nat);
        if early < 31 {
            lemma_pow2_strictly_increases(early as nat, 31);
        }
        if late < 32 && early < late {
            lemma_pow2_strictly_increases(early as nat, late as nat);
        }
    }
    let (e, l) = (factor(early), factor(late));
    assert(1 <= e <= l);
    assert(0 <= policy.backoff_base_ns * e <= policy.backoff_base_ns * l) by (nonlinear_arith)
        requires
            1 <= e <= l,
            policy.backoff_base_ns >= 0,
    ;
    assert(policy.backoff_base_ns * 1 == policy.backoff_base_ns);
}

/// An outage is made up for sample by sample: what a new connection adds to the silence that
/// is owed is the time without one, at the target rate and up to a minute, and every sample
/// of it is handed out once. Nothing else changes what is owed and handed out together.
pub proof fn law_outages_are_made_up_for(m: KiwiModel, event: KiwiEvent, now: int)
    requires
        m.wf(),
        m.has_room(),
        m.expects(event),
    ensures
        ({
            let (then, _) = m.step(event, now);
            then.owed + then.stats.zero_filled_samples == m.owed + m.stats.zero_filled_samples + (
            if event is Connected {
                made_up(now - m.outage_started)
            } else {
                0
            })
        }),
{
    lemma_made_up_is_bounded(now - m.outage_started);
}

proof fn lemma_made_up_is_bounded(outage_ns: int)
    ensures
        0 <= made_up(outage_ns) <= made_up(MAX_ZERO_FILL_NS as int) == 5_760_000,
{
}

/// Attempts are counted one by one, each with a new connection to be made, and only samples
/// set the count back.
pub proof fn law_only_samples_renew_the_attempts(m: KiwiModel, event: KiwiEvent, now: int)
    requires
        m.wf(),
        m.expects(event),
    ensures
        ({
            let (then, action) = m.step(event, now);
            &&& action is Connect ==> then.attempts == m.attempts + 1
            &&& !(action is Connect) ==> then.attempts == m.attempts || (then.attempts == 0
                && event is Needs)
            &&& then.attempts <= then.policy.max_attempts
            &&& then.policy == m.policy
        }),
{
}

/// The event ends the connection.
pub open spec fn loses_connection(m: KiwiModel, event: KiwiEvent) -> bool {
    match event {
        KiwiEvent::SendFailed | KiwiEvent::ReadFailed | KiwiEvent::Ended => true,
        KiwiEvent::Silence => m.timeouts + 1 >= MAX_CONSECUTIVE_TIMEOUTS,
        KiwiEvent::Unusable | KiwiEvent::Rates(None, None) => m.unusable + 1
            >= MAX_CONSECUTIVE_UNUSABLE_FRAMES,
        KiwiEvent::Samples(v) => v@.len() == 0 && m.unusable + 1
            >= MAX_CONSECUTIVE_UNUSABLE_FRAMES,
        _ => false,
    }
}

/// Every loss of a connection is counted, and every one that is taken up again. Samples that
/// the resampler gave are kept through a loss, those that wait for it are not. Where no
/// attempt is left, a loss or a failed attempt ends the read with the cause of the loss;
/// where one is left, it is made.
pub proof fn law_losses_are_counted_and_answered(m: KiwiModel, event: KiwiEvent, now: int)
    requires
        m.wf(),
        m.has_room(),
        m.expects(event),
    ensures
        ({
            let (then, action) = m.step(event, now);
            let lost = loses_connection(m, event);
            &&& then.stats.connection_failures == m.stats.connection_failures + if lost {
                1int
            } else {
                0int
            }
            &&& then.stats.reconnects == m.stats.reconnects + if event is Connected {
                1int
            } else {
                0int
            }
            &&& lost ==> then.raw.len() == 0 && then.pending == m.pending
            &&& lost || event is ConnectFailed ==> if m.attempts >= m.policy.max_attempts {
                action == ActionModel::Fail(KiwiFailure::Unrecoverable(then.cause))
            } else {
                action is Sleep || action is Connect
            }
        }),
{
}

/// A session after events, each with its time.
pub open spec fn after_events(m: KiwiModel, events: Seq<(KiwiEvent, int)>) -> KiwiModel
    decreases events.len(),
{
    if events.len() == 0 {
        m
    } else {
        after_events(m, events.drop_last()).step(events.last().0, events.last().1).0
    }
}

/// How many connections are to be made on the way.
pub open spec fn connections(m: KiwiModel, events: Seq<(KiwiEvent, int)>) -> int
    decreases events.len(),
{
    if events.len() == 0 {
        0
    } else {
        let before = after_events(m, events.drop_last());
        connections(m, events.drop_last()) + if before.step(events.last().0, events.last().1).1
            is Connect {
            1int
        } else {
            0int
        }
    }
}

/// The events can happen one after the other.
pub open spec fn possible(m: KiwiModel, events: Seq<(KiwiEvent, int)>) -> bool
    decreases events.len(),
{
    if events.len() == 0 {
        m.wf()
    } else {
        let before = after_events(m, events.drop_last());
        &&& possible(m, events.drop_last())
        &&& before.has_room()
        &&& before.expects(events.last().0)
    }
}

/// A receiver that accepts every connection and never sends samples is connected to no more
/// often than there are attempts, however the connections end and over however many reads.
pub proof fn law_connections_without_samples_are_bounded(
    m: KiwiModel,
    events: Seq<(KiwiEvent, int)>,
)
    requires
        possible(m, events),
        forall|k: int| 0 <= k < events.len() ==> !((#[trigger] events[k]).0 is Needs),
    ensures
        after_events(m, events).wf(),
        after_events(m, events).attempts == m.attempts + connections(m, events),
        connections(m, events) <= m.policy.max_attempts - m.attempts,
        after_events(m, events).policy == m.policy,
    decreases events.len(),
{
    if events.len() > 0 {
        let front = events.drop_last();
        assert forall|k: int| 0 <= k < front.len() implies !((#[trigger] front[k]).0 is Needs) by {
            assert(front[k] == events[k]);
        }
        law_connections_without_samples_are_bounded(m, front);
        let before = after_events(m, front);
        assert(events.last() == events[events.len() - 1]);
        law_only_samples_renew_the_attempts(before, events.last().0, events.last().1);
        law_sessions_stay_well_formed(before, events.last().0, events.last().1);
    }
}

/// What holds of a session holds after every event.
pub proof fn law_sessions_stay_well_formed(m: KiwiModel, event: KiwiEvent, now: int)
    requires
        m.wf(),
        m.has_room(),
        m.expects(event),
    ensures
        m.step(event, now).0.wf(),
{
    lemma_made_up_is_bounded(now - m.outage_started);
}

/// The receiver is never read while it is due to hear from us.
pub proof fn law_no_read_while_a_keepalive_is_due(m: KiwiModel, event: KiwiEvent, now: int)
    requires
        m.wf(),
        m.expects(event),
    ensures
        m.step(event, now).1 is ReadFrame ==> !m.step(event, now).0.keepalive_due(now),
{
}

/// Samples are handed out in the order in which the resampler gave them, none twice and none
/// left out, and before any silence.
pub proof fn law_samples_are_handed_out_in_order(m: KiwiModel, event: KiwiEvent, now: int)
    requires
        m.wf(),
        m.expects(event),
    ensures
        ({
            let (then, action) = m.step(event, now);
            let given = match event {
                KiwiEvent::Resampled(_, out) => m.pending + out@,
                _ => m.pending,
            };
            match action {
                ActionModel::Deliver(v) => {
                    ||| v + then.pending == given
                    ||| given.len() == 0 && then.pending.len() == 0 && v == Seq::new(
                        v.len(),
                        |k: int| silence(),
                    )
                },
                _ => then.pending == given,
            }
        }),
{
    let (then, action) = m.step(event, now);
    if let ActionModel::Deliver(v) = action {
        if m.pending.len() > 0 {
            assert(v + then.pending =~= m.pending);
        } else {
            assert(v =~= Seq::new(v.len(), |k: int| silence()));
        }
    }
}

/// A read ends with at least one sample, or it fails; one without room for samples changes
/// nothing.
pub proof fn law_no_read_ends_empty(m: KiwiModel, event: KiwiEvent, now: int)
    requires
        m.wf(),
        m.has_room(),
        m.expects(event),
    ensures
        ({
            let (then, action) = m.step(event, now);
            &&& (then.phase is Idle) == (action is Deliver || action is Fail || action is NoRoom)
            &&& action is NoRoom <==> event == KiwiEvent::Wanted(0)
            &&& action is NoRoom ==> then == m
            &&& action matches ActionModel::Deliver(v) ==> 0 < v.len() <= then.wanted
        }),
{
    lemma_made_up_is_bounded(now - m.outage_started);
}

/// Samples go to the resampler in the order in which they came. Those of a frame are put
/// behind the ones that wait; the resampler is given the first of them, as many as it takes,
/// once there are so many; and those that it has used leave from the front. Nothing else but
/// the loss of the connection touches them.
pub proof fn law_frames_wait_in_order(m: KiwiModel, event: KiwiEvent, now: int)
    requires
        m.wf(),
        m.expects(event),
        !loses_connection(m, event),
    ensures
        ({
            let (then, action) = m.step(event, now);
            &&& match event {
                KiwiEvent::Samples(v) => {
                    &&& then.raw.len() == m.raw.len() + v@.len()
                    &&& forall|i: int| 0 <= i < m.raw.len() ==> #[trigger] then.raw[i] == m.raw[i]
                    &&& forall|i: int|
                        m.raw.len() <= i < then.raw.len() ==> #[trigger] then.raw[i] == v@[i
                            - m.raw.len()]
                },
                KiwiEvent::Resampled(used, _) => {
                    &&& then.raw.len() == m.raw.len() - used
                    &&& forall|i: int|
                        0 <= i < then.raw.len() ==> #[trigger] then.raw[i] == m.raw[used + i]
                },
                _ => then.raw == m.raw,
            }
            &&& action is Resample <==> (event matches KiwiEvent::Needs(need) && need <= m.raw.len())
            &&& action matches ActionModel::Resample(v) ==> {
                &&& event == KiwiEvent::Needs(v.len() as usize)
                &&& forall|i: int| 0 <= i < v.len() ==> #[trigger] v[i] == m.raw[i]
            }
        }),
{
}

/// All samples of the frames among the events, in the order in which they came.
pub open spec fn arrived(events: Seq<(KiwiEvent, int)>) -> Seq<IqPair>
    decreases events.len(),
{
    if events.len() == 0 {
        Seq::empty()
    } else {
        let before = arrived(events.drop_last());
        match events.last().0 {
            KiwiEvent::Samples(v) => before + v@,
            _ => before,
        }
    }
}

/// All samples that the resampler has used up on the way, in the order in which it got them.
pub open spec fn used_up(m: KiwiModel, events: Seq<(KiwiEvent, int)>) -> Seq<IqPair>
    decreases events.len(),
{
    if events.len() == 0 {
        Seq::empty()
    } else {
        let before = used_up(m, events.drop_last());
        match events.last().0 {
            KiwiEvent::Resampled(used, _) => before + after_events(
                m,
                events.drop_last(),
            ).raw.subrange(0, used as int),
            _ => before,
        }
    }
}

/// None of the events loses the connection.
pub open spec fn stays_connected(m: KiwiModel, events: Seq<(KiwiEvent, int)>) -> bool
    decreases events.len(),
{
    events.len() == 0 || stays_connected(m, events.drop_last()) && !loses_connection(
        after_events(m, events.drop_last()),
        events.last().0,
    )
}

/// As long as a connection lasts, what the resampler has used up and what still waits for it
/// are together all that came, in the order in which it came.
pub proof fn law_no_sample_is_lost_or_moved(m: KiwiModel, events: Seq<(KiwiEvent, int)>)
    requires
        possible(m, events),
        stays_connected(m, events),
    ensures
        used_up(m, events) + after_events(m, events).raw == m.raw + arrived(events),
        after_events(m, events).wf(),
    decreases events.len(),
{
    if events.len() == 0 {
        assert(used_up(m, events) + m.raw =~= m.raw + arrived(events));
    } else {
        let front = events.drop_last();
        let (event, now) = events.last();
        law_no_sample_is_lost_or_moved(m, front);
        let before = after_events(m, front);
        let then = after_events(m, events);
        law_frames_wait_in_order(before, event, now);
        law_sessions_stay_well_formed(before, event, now);
        let (gone, came) = (used_up(m, front), arrived(front));
        match event {
            KiwiEvent::Samples(v) => {
                assert(then.raw =~= before.raw + v@);
                assert(gone + (before.raw + v@) =~= (gone + before.raw) + v@);
                assert((m.raw + came) + v@ =~= m.raw + (came + v@));
            },
            KiwiEvent::Resampled(used, _) => {
                let part = before.raw.subrange(0, used as int);
                assert(before.raw =~= part + then.raw);
                assert(gone + (part + then.raw) =~= (gone + part) + then.raw);
            },
            _ => {},
        }
    }
}

/// A read hands out as many samples as the caller wants, or all that there are.
pub proof fn law_reads_are_filled(m: KiwiModel, event: KiwiEvent, now: int)
    requires
        m.wf(),
        m.has_room(),
        m.expects(event),
    ensures
        ({
            let (then, action) = m.step(event, now);
            action matches ActionModel::Deliver(v) ==> {
                &&& then.wanted == (match event {
                    KiwiEvent::Wanted(max) => max as int,
                    _ => m.wanted,
                })
                &&& v.len() == then.wanted || v.len() < then.wanted && then.pending.len() == 0 && (
                m.pending.len() > 0 || then.owed == 0)
                &&& then.stats.zero_filled_samples == m.stats.zero_filled_samples || (
                then.stats.zero_filled_samples == m.stats.zero_filled_samples + v.len()
                    && m.pending.len() == 0 && then.pending.len() == 0)
            }
        }),
{
    lemma_made_up_is_bounded(now - m.outage_started);
}

/// An outage is made up for by zeros, 96 of them a millisecond, a part of a sample left out,
/// and no more than a minute of it.
pub proof fn law_outages_are_made_up_at_the_target_rate(outage_ns: int)
    ensures
        outage_ns <= 0 ==> made_up(outage_ns) == 0,
        0 <= outage_ns <= 60_000_000_000 ==> made_up(outage_ns) * 1_000_000_000 <= outage_ns
            * 96_000 < (made_up(outage_ns) + 1) * 1_000_000_000,
        outage_ns >= 60_000_000_000 ==> made_up(outage_ns) == 60 * 96_000,
        silence().re.bits == 0 && silence().im.bits == 0,
{
}

/// Each wait is twice as long as the one before, up to the longest, and the first is the
/// shortest.
pub proof fn law_waits_double(policy: ReconnectPolicy, attempt: u32)
    requires
        attempt < 31,
    ensures
        backoff(policy, (attempt + 1) as u32) == (if 2 * backoff(policy, attempt)
            < policy.backoff_max_ns {
            2 * backoff(policy, attempt)
        } else {
            policy.backoff_max_ns as int
        }),
        policy.backoff_base_ns < policy.backoff_max_ns ==> backoff(policy, 0)
            == policy.backoff_base_ns,
{
    lemma2_to64();
    lemma_pow2_unfold((attempt + 1) as nat);
    lemma_pow2_pos(attempt as nat);
    let p = pow2(attempt as nat) as int;
    let base = policy.backoff_base_ns as int;
    assert(base * (2 * p) == 2 * (base * p)) by (nonlinear_arith);
    assert(base * p >= 0) by (nonlinear_arith)
        requires
            base >= 0,
            p > 0,
    ;
    assert(policy.backoff_base_ns * 1 == policy.backoff_base_ns);
}

/// Before each attempt to connect again there is the wait that belongs to it, counted from
/// the last samples on; where that is nothing, the attempt is made at once.
pub proof fn law_attempts_wait_their_turn(m: KiwiModel, event: KiwiEvent, now: int)
    requires
        m.wf(),
        m.expects(event),
        loses_connection(m, event) || event is ConnectFailed,
        m.attempts < m.policy.max_attempts,
    ensures
        ({
            let wait = backoff(m.policy, m.attempts as u32);
            let (then, action) = m.step(event, now);
            &&& wait > 0 ==> action == ActionModel::Sleep(wait)
            &&& wait == 0 ==> action is Connect
            &&& wait > 0 ==> then.step(KiwiEvent::Slept, now).1 is Connect
            &&& loses_connection(m, event) ==> then.outage_started == now
            &&& event is ConnectFailed ==> then.outage_started == m.outage_started
        }),
{
    law_waits_grow_to_a_limit(m.policy, m.attempts as u32, m.attempts as u32);
}

/// The receiver hears from us where it has not for a second, and before anything is read; the
/// second is counted anew from then on, and from a new connection.
pub proof fn law_the_receiver_is_kept_awake(m: KiwiModel, event: KiwiEvent, now: int)
    requires
        m.wf(),
        m.expects(event),
    ensures
        ({
            let (then, action) = m.step(event, now);
            &&& action is ReadFrame ==> now - then.last_keepalive < 1_000_000_000
            &&& then.phase is Keepalive <==> action == ActionModel::Send("SET keepalive"@)
                && !(then.phase is Acking)
            &&& then.phase is Keepalive ==> now - m.last_keepalive >= 1_000_000_000
            &&& then.phase is Keepalive ==> {
                let (later, next) = then.step(KiwiEvent::Sent, now);
                next is ReadFrame && later.last_keepalive == now
            }
            &&& event is Connected ==> then.last_keepalive == now
            &&& then.last_keepalive == m.last_keepalive || event is Connected || event is Sent
        }),
{
}

/// An audio rate that the receiver names is accepted at once, without its fraction.
pub proof fn law_audio_rates_are_answered(
    m: KiwiModel,
    rate: Dyadic,
    sample: Option<Dyadic>,
    now: int,
)
    requires
        m.wf(),
        m.phase is Reading,
    ensures
        m.step(KiwiEvent::Rates(Some(rate), sample), now).1 == ActionModel::Send(
            "SET AR OK in="@ + crate::kiwi_wire::signed_decimal(rate.as_i64()) + " out=96000"@,
        ),
{
}

/// How many of the last events were reads without a frame; what was sent meanwhile does not
/// count.
pub open spec fn silences_in_a_row(events: Seq<(KiwiEvent, int)>) -> int
    decreases events.len(),
{
    if events.len() == 0 || events.last().0 is Unusable {
        0
    } else {
        silences_in_a_row(events.drop_last()) + if events.last().0 is Silence {
            1int
        } else {
            0int
        }
    }
}

/// How many of the events were frames that are good for nothing.
pub open spec fn useless_frames(events: Seq<(KiwiEvent, int)>) -> int
    decreases events.len(),
{
    if events.len() == 0 {
        0
    } else {
        useless_frames(events.drop_last()) + if events.last().0 is Unusable {
            1int
        } else {
            0int
        }
    }
}

/// There were never forty reads in a row without a frame.
pub open spec fn never_silent_for_long(events: Seq<(KiwiEvent, int)>) -> bool
    decreases events.len(),
{
    events.len() == 0 || never_silent_for_long(events.drop_last()) && silences_in_a_row(events) < 40
}

/// While nothing usable comes, a connection lasts until forty reads in a row brought no frame,
/// or ten thousand frames were good for nothing, and no longer; nothing is handed out, and
/// what waits for the resampler stays.
pub proof fn law_a_connection_outlasts_bad_reads(
    m: KiwiModel,
    events: Seq<(KiwiEvent, int)>,
    now: int,
)
    requires
        possible(m, events),
        m.phase is Reading,
        m.timeouts == 0,
        m.unusable == 0,
        forall|k: int|
            0 <= k < events.len() ==> (#[trigger] events[k]).0 is Silence || events[k].0 is Sent
                || events[k].0 is Unusable,
        never_silent_for_long(events),
        useless_frames(events) < 10_000,
    ensures
        ({
            let then = after_events(m, events);
            &&& then.wf()
            &&& then.phase is Reading || then.phase is Keepalive
            &&& then.timeouts == silences_in_a_row(events)
            &&& then.unusable == useless_frames(events)
            &&& then.stats.connection_failures == m.stats.connection_failures
            &&& then.raw == m.raw && then.pending == m.pending && then.owed == m.owed
            &&& then.phase is Reading && then.has_room() ==> {
                let (silent, useless) = (
                    then.step(KiwiEvent::Silence, now).0,
                    then.step(KiwiEvent::Unusable, now).0,
                );
                &&& silent.stats.connection_failures == then.stats.connection_failures + if
                    silences_in_a_row(events) + 1 == 40 {
                    1int
                } else {
                    0int
                }
                &&& useless.stats.connection_failures == then.stats.connection_failures + if
                    useless_frames(events) + 1 == 10_000 {
                    1int
                } else {
                    0int
                }
            }
        }),
    decreases events.len(),
{
    if events.len() > 0 {
        let front = events.drop_last();
        assert forall|k: int| 0 <= k < front.len() implies (#[trigger] front[k]).0 is Silence
            || front[k].0 is Sent || front[k].0 is Unusable by {
            assert(front[k] == events[k]);
        }
        assert(events.last() == events[events.len() - 1]);
        law_a_connection_outlasts_bad_reads(m, front, now);
        law_sessions_stay_well_formed(after_events(m, front), events.last().0, events.last().1);
    }
}

/// Frames that are good for something end a run of useless ones: an audio rate once it is
/// accepted, a sample rate, and samples. Only samples, and not the rates, renew the attempts.
/// Parameters without a rate, and frames without samples, are as useless as any.
pub proof fn law_useful_frames_end_a_useless_run(
    m: KiwiModel,
    rate: Dyadic,
    audio: Dyadic,
    empty: Vec<IqPair>,
    need: usize,
    now: int,
)
    requires
        m.wf(),
        empty@.len() == 0,
        need > m.raw.len(),
    ensures
        m.phase is Reading ==> {
            let known = m.step(KiwiEvent::Rates(None, Some(rate)), now).0;
            let accepted = m.step(KiwiEvent::Rates(Some(audio), None), now).0.step(
                KiwiEvent::Sent,
                now,
            ).0;
            &&& known.unusable == 0 && known.timeouts == 0 && known.attempts == m.attempts
            &&& accepted.unusable == 0 && accepted.timeouts == 0 && accepted.attempts == m.attempts
            &&& m.step(KiwiEvent::Rates(None, None), now) == m.step(KiwiEvent::Unusable, now)
            &&& m.step(KiwiEvent::Samples(empty), now) == m.step(KiwiEvent::Unusable, now)
        },
        m.phase is Measuring ==> {
            let fed = m.step(KiwiEvent::Needs(need), now).0;
            fed.unusable == 0 && fed.attempts == 0
        },
{
}

/// A connection is given up after ten seconds without a frame.
pub proof fn law_how_long_silence_lasts()
    ensures
        READ_TIMEOUT_NS * MAX_CONSECUTIVE_TIMEOUTS == 10_000_000_000,
{
}

/// A session begins with nothing: nothing waits, nothing is owed, nothing has failed and
/// nothing is counted, and the receiver was heard from just now.
pub proof fn law_a_session_begins_with_nothing(policy: ReconnectPolicy, now: int)
    ensures
        ({
            let m = KiwiModel::fresh(policy, now);
            &&& m.phase is Idle
            &&& m.policy == policy
            &&& m.raw.len() == 0 && m.pending.len() == 0 && m.owed == 0 && m.wanted == 0
            &&& m.attempts == 0 && m.timeouts == 0 && m.unusable == 0
            &&& m.stats.unusable_frames == 0 && m.stats.connection_failures == 0
            &&& m.stats.reconnects == 0 && m.stats.zero_filled_samples == 0
            &&& m.last_keepalive == now && m.outage_started == now
        }),
{
}

} // verus!
