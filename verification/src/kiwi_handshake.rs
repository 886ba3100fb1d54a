//! How a connection to a KiwiSDR receiver is opened.
//!
//! The password goes first. The receiver then tells its parameters; the audio rate must be
//! accepted, or no samples ever come, and the sample rate is what the resampler is built for.
//! Once that is known the receiver is set up.

use crate::dyadic::Dyadic;
use crate::kiwi::{MAX_CONSECUTIVE_TIMEOUTS, RESAMPLER_CHUNK};
use crate::kiwi_wire::{
    ack_command, auth_command, setup_command, SETUP_COMMANDS, TARGET_RATE_HZ,
};
use vstd::prelude::*;

verus! {

/// Why no connection could be opened.
#[derive(Debug, Clone, Copy, PartialEq, Eq, Structural)]
pub enum HandshakeFailure {
    /// A command could not be sent.
    Send,
    /// A read failed.
    Read,
    /// Nothing came for too long.
    Stalled,
}

/// What came of what was to be done.
#[derive(Debug, Clone, Copy)]
pub enum HandshakeEvent {
    /// The command is sent.
    Sent,
    /// The command could not be sent.
    SendFailed,
    /// The read brought nothing in time.
    Silence,
    /// The read failed for good.
    ReadFailed,
    /// The frame held parameters; of these, the audio rate and the sample rate count.
    Rates(Option<Dyadic>, Option<Dyadic>),
    /// The frame held none.
    Other,
}

/// What is to be done.
#[derive(Debug)]
pub enum HandshakeAction {
    /// Send this.
    Send(String),
    /// Read a frame.
    ReadFrame,
    /// The connection is open, and this is its sample rate.
    Done(usize),
    /// The connection could not be opened.
    Fail(HandshakeFailure),
}

/// What is to be done.
#[verifier::ext_equal]
pub ghost enum HandshakeActionModel {
    Send(Seq<char>),
    ReadFrame,
    Done(int),
    Fail(HandshakeFailure),
}

impl HandshakeAction {
    /// The action.
    pub open spec fn view(&self) -> HandshakeActionModel {
        match *self {
            HandshakeAction::Send(s) => HandshakeActionModel::Send(s@),
            HandshakeAction::ReadFrame => HandshakeActionModel::ReadFrame,
            HandshakeAction::Done(rate) => HandshakeActionModel::Done(rate as int),
            HandshakeAction::Fail(f) => HandshakeActionModel::Fail(f),
        }
    }
}

/// What a handshake is waiting for.
#[derive(Debug, Clone, Copy, PartialEq, Eq, Structural)]
pub enum HandshakePhase {
    /// That the password is sent.
    Auth,
    /// A frame.
    Reading,
    /// That the audio rate is accepted.
    Acking(Option<Dyadic>),
    /// That a command that sets up the receiver is sent.
    Setup { command: usize, rate: usize },
    /// Nothing more.
    Over,
}

/// A connection that is being opened.
pub struct Handshake {
    phase: HandshakePhase,
    timeouts: u32,
    freq_khz: String,
}

/// What a handshake is.
#[verifier::ext_equal]
pub ghost struct HandshakeModel {
    pub phase: HandshakePhase,
    pub timeouts: int,
    pub freq_khz: Seq<char>,
}

impl HandshakeModel {
    /// The password is to be sent.
    pub open spec fn fresh(freq_khz: Seq<char>) -> HandshakeModel {
        HandshakeModel { phase: HandshakePhase::Auth, timeouts: 0, freq_khz }
    }

    /// No bound has been reached.
    pub open spec fn wf(self) -> bool {
        &&& 0 <= self.timeouts < MAX_CONSECUTIVE_TIMEOUTS
        &&& self.phase matches HandshakePhase::Setup { command, .. } ==> command < SETUP_COMMANDS
    }

    /// The event answers what the handshake is waiting for.
    pub open spec fn expects(self, event: HandshakeEvent) -> bool {
        match event {
            HandshakeEvent::Sent | HandshakeEvent::SendFailed => !(self.phase is Reading)
                && !(self.phase is Over),
            _ => self.phase is Reading,
        }
    }

    /// Reads on, or sets up the receiver where its rate is known.
    pub open spec fn rate_turn(self, sample_rate: Option<Dyadic>) -> (
        HandshakeModel,
        HandshakeActionModel,
    ) {
        match sample_rate {
            Some(rate) => (
                HandshakeModel {
                    phase: HandshakePhase::Setup { command: 0, rate: rate.as_count() as usize },
                    ..self
                },
                HandshakeActionModel::Send(crate::kiwi_wire::setup_text(0, self.freq_khz)),
            ),
            None => (
                HandshakeModel { phase: HandshakePhase::Reading, ..self },
                HandshakeActionModel::ReadFrame,
            ),
        }
    }

    /// The handshake has failed.
    pub open spec fn failed(self, why: HandshakeFailure) -> (
        HandshakeModel,
        HandshakeActionModel,
    ) {
        (
            HandshakeModel { phase: HandshakePhase::Over, ..self },
            HandshakeActionModel::Fail(why),
        )
    }

    /// The next state, and what is to be done, after an event.
    pub open spec fn step(self, event: HandshakeEvent) -> (HandshakeModel, HandshakeActionModel) {
        match event {
            HandshakeEvent::Sent => match self.phase {
                HandshakePhase::Acking(sample_rate) => self.rate_turn(sample_rate),
                HandshakePhase::Setup { command, rate } => if command + 1 < SETUP_COMMANDS {
                    (
                        HandshakeModel {
                            phase: HandshakePhase::Setup { command: (command + 1) as usize, rate },
                            ..self
                        },
                        HandshakeActionModel::Send(
                            crate::kiwi_wire::setup_text(command + 1, self.freq_khz),
                        ),
                    )
                } else {
                    (
                        HandshakeModel { phase: HandshakePhase::Over, ..self },
                        HandshakeActionModel::Done(rate as int),
                    )
                },
                _ => self.rate_turn(None),
            },
            HandshakeEvent::SendFailed => self.failed(HandshakeFailure::Send),
            HandshakeEvent::Silence => if self.timeouts + 1 >= MAX_CONSECUTIVE_TIMEOUTS {
                self.failed(HandshakeFailure::Stalled)
            } else {
                (HandshakeModel { timeouts: self.timeouts + 1, ..self }).rate_turn(None)
            },
            HandshakeEvent::ReadFailed => self.failed(HandshakeFailure::Read),
            HandshakeEvent::Rates(audio, sample_rate) => {
                let m = HandshakeModel { timeouts: 0, ..self };
                match audio {
                    Some(rate) => (
                        HandshakeModel { phase: HandshakePhase::Acking(sample_rate), ..m },
                        HandshakeActionModel::Send(crate::kiwi_wire::ack_text(rate.as_i64())),
                    ),
                    None => m.rate_turn(sample_rate),
                }
            },
            HandshakeEvent::Other => (HandshakeModel { timeouts: 0, ..self }).rate_turn(None),
        }
    }
}

impl Handshake {
    /// What the handshake is.
    pub closed spec fn view(&self) -> HandshakeModel {
        HandshakeModel {
            phase: self.phase,
            timeouts: self.timeouts as int,
            freq_khz: self.freq_khz@,
        }
    }

    /// Begins with the password. `freq_khz` is the frequency in kHz, with three decimals.
    pub fn begin(password: &str, freq_khz: &str) -> (r: (Handshake, HandshakeAction))
        ensures
            r.0@.wf(),
            r.0@ == HandshakeModel::fresh(freq_khz@),
            r.1@ == HandshakeActionModel::Send("SET auth t=kiwi p="@ + password@),
    {
        let h = Handshake {
            phase: HandshakePhase::Auth,
            timeouts: 0,
            freq_khz: freq_khz.to_owned(),
        };
        (h, HandshakeAction::Send(auth_command(password)))
    }

    fn rate_turn(&mut self, sample_rate: Option<Dyadic>) -> (action: HandshakeAction)
        requires
            0 <= old(self)@.timeouts < MAX_CONSECUTIVE_TIMEOUTS,
        ensures
            final(self)@.wf(),
            (final(self)@, action@) == old(self)@.rate_turn(sample_rate),
    {
        match sample_rate {
            Some(rate) => {
                self.phase = HandshakePhase::Setup { command: 0, rate: rate.to_count() };
                HandshakeAction::Send(setup_command(0, self.freq_khz.as_str()))
            },
            None => {
                self.phase = HandshakePhase::Reading;
                HandshakeAction::ReadFrame
            },
        }
    }

    /// Takes note of an event, and says what is to be done next.
    pub fn next(&mut self, event: HandshakeEvent) -> (action: HandshakeAction)
        requires
            old(self)@.wf(),
            old(self)@.expects(event),
        ensures
            final(self)@.wf(),
            (final(self)@, action@) == old(self)@.step(event),
    {
        match event {
            HandshakeEvent::Sent => match self.phase {
                HandshakePhase::Acking(sample_rate) => self.rate_turn(sample_rate),
                HandshakePhase::Setup { command, rate } => {
                    if command + 1 < SETUP_COMMANDS {
                        self.phase = HandshakePhase::Setup { command: command + 1, rate };
                        HandshakeAction::Send(setup_command(command + 1, self.freq_khz.as_str()))
                    } else {
                        self.phase = HandshakePhase::Over;
                        HandshakeAction::Done(rate)
                    }
                },
                _ => self.rate_turn(None),
            },
            HandshakeEvent::SendFailed => {
                self.phase = HandshakePhase::Over;
                HandshakeAction::Fail(HandshakeFailure::Send)
            },
            HandshakeEvent::Silence => {
                if self.timeouts + 1 >= MAX_CONSECUTIVE_TIMEOUTS {
                    self.phase = HandshakePhase::Over;
                    HandshakeAction::Fail(HandshakeFailure::Stalled)
                } else {
                    self.timeouts = self.timeouts + 1;
                    self.rate_turn(None)
                }
            },
            HandshakeEvent::ReadFailed => {
                self.phase = HandshakePhase::Over;
                HandshakeAction::Fail(HandshakeFailure::Read)
            },
            HandshakeEvent::Rates(audio, sample_rate) => {
                self.timeouts = 0;
                match audio {
                    Some(rate) => {
                        self.phase = HandshakePhase::Acking(sample_rate);
                        HandshakeAction::Send(ack_command(rate.to_i64()))
                    },
                    None => self.rate_turn(sample_rate),
                }
            },
            HandshakeEvent::Other => {
                self.timeouts = 0;
                self.rate_turn(None)
            },
        }
    }
}

/// What a resampler is built for.
#[derive(Debug, Clone, Copy, PartialEq, Eq, Structural)]
pub struct ResamplerPlan {
    pub rate_in_hz: usize,
    pub rate_out_hz: usize,
    /// Samples taken at once.
    pub chunk: usize,
    pub channels: usize,
}

/// The resampler for a receiver's rate: to the target rate, for I and Q. A rate of zero has
/// none.
pub fn resampler_plan(rate_in_hz: usize) -> (plan: Option<ResamplerPlan>)
    ensures
        plan == (if rate_in_hz == 0 {
            None
        } else {
            Some(
                ResamplerPlan {
                    rate_in_hz,
                    rate_out_hz: TARGET_RATE_HZ,
                    chunk: RESAMPLER_CHUNK,
                    channels: 2,
                },
            )
        }),
{
    if rate_in_hz == 0 {
        return None;
    }
    Some(
        ResamplerPlan {
            rate_in_hz,
            rate_out_hz: TARGET_RATE_HZ,
            chunk: RESAMPLER_CHUNK,
            channels: 2,
        },
    )
}

/// An audio rate is always accepted before anything else is done, and the sample rate that
/// came with it is not forgotten.
pub proof fn law_audio_rates_are_accepted(m: HandshakeModel, audio: Dyadic, sample: Option<Dyadic>)
    requires
        m.wf(),
        m.phase is Reading,
    ensures
        ({
            let (then, action) = m.step(HandshakeEvent::Rates(Some(audio), sample));
            &&& action == HandshakeActionModel::Send(crate::kiwi_wire::ack_text(audio.as_i64()))
            &&& then.step(HandshakeEvent::Sent) == (HandshakeModel {
                timeouts: 0,
                ..m
            }).rate_turn(sample)
        }),
{
}

/// A handshake after events.
pub open spec fn after_handshake(m: HandshakeModel, events: Seq<HandshakeEvent>) -> HandshakeModel
    decreases events.len(),
{
    if events.len() == 0 {
        m
    } else {
        after_handshake(m, events.drop_last()).step(events.last()).0
    }
}

/// Once the sample rate is known and nothing fails, the commands that set up the receiver go
/// out in order, and the connection is then open at that rate.
pub proof fn law_the_receiver_is_set_up_in_order(m: HandshakeModel, rate: Dyadic, k: nat)
    requires
        m.wf(),
        k <= SETUP_COMMANDS,
    ensures
        ({
            let (first, action) = m.rate_turn(Some(rate));
            let sent = Seq::new(k, |j: int| HandshakeEvent::Sent);
            let then = after_handshake(first, sent);
            &&& action == HandshakeActionModel::Send(crate::kiwi_wire::setup_text(0, m.freq_khz))
            &&& k < SETUP_COMMANDS ==> then == (HandshakeModel {
                phase: HandshakePhase::Setup { command: k as usize, rate: rate.as_count() as usize },
                ..m
            })
            &&& k + 1 < SETUP_COMMANDS ==> then.step(HandshakeEvent::Sent).1
                == HandshakeActionModel::Send(crate::kiwi_wire::setup_text(k as int + 1, m.freq_khz))
            &&& k + 1 == SETUP_COMMANDS ==> then.step(HandshakeEvent::Sent).1
                == HandshakeActionModel::Done(rate.as_count() as usize as int)
            &&& k == SETUP_COMMANDS ==> then.phase is Over
        }),
    decreases k,
{
    let (first, action) = m.rate_turn(Some(rate));
    let sent = Seq::new(k, |j: int| HandshakeEvent::Sent);
    if k > 0 {
        law_the_receiver_is_set_up_in_order(m, rate, (k - 1) as nat);
        let fewer = Seq::new((k - 1) as nat, |j: int| HandshakeEvent::Sent);
        assert(sent.drop_last() =~= fewer);
        assert(sent.last() == HandshakeEvent::Sent);
    }
}

/// How many of the last events were reads that brought nothing.
pub open spec fn silent_reads(events: Seq<HandshakeEvent>) -> int
    decreases events.len(),
{
    if events.len() == 0 || !(events.last() is Silence) {
        0
    } else {
        silent_reads(events.drop_last()) + 1
    }
}

/// There were never forty reads in a row that brought nothing.
pub open spec fn never_stalled(events: Seq<HandshakeEvent>) -> bool
    decreases events.len(),
{
    events.len() == 0 || never_stalled(events.drop_last()) && silent_reads(events) < 40
}

/// The handshake waits for the sample rate through frames without parameters and through
/// silence, and gives up with the fortieth read in a row that brings nothing, and not before.
pub proof fn law_a_handshake_waits_for_the_rate(m: HandshakeModel, events: Seq<HandshakeEvent>)
    requires
        m.wf(),
        m.phase is Reading,
        m.timeouts == 0,
        forall|k: int|
            0 <= k < events.len() ==> #[trigger] events[k] is Silence || events[k] is Other
                || events[k] == HandshakeEvent::Rates(None, None),
        never_stalled(events),
    ensures
        ({
            let then = after_handshake(m, events);
            &&& then.phase is Reading
            &&& then.timeouts == silent_reads(events)
            &&& then.freq_khz == m.freq_khz
            &&& then.step(HandshakeEvent::Silence).1 == (if silent_reads(events) + 1 == 40 {
                HandshakeActionModel::Fail(HandshakeFailure::Stalled)
            } else {
                HandshakeActionModel::ReadFrame
            })
            &&& then.step(HandshakeEvent::Other).1 is ReadFrame
            &&& then.step(HandshakeEvent::ReadFailed).1 == HandshakeActionModel::Fail(
                HandshakeFailure::Read,
            )
        }),
    decreases events.len(),
{
    if events.len() > 0 {
        let front = events.drop_last();
        assert forall|k: int| 0 <= k < front.len() implies #[trigger] front[k] is Silence
            || front[k] is Other || front[k] == HandshakeEvent::Rates(None, None) by {
            assert(front[k] == events[k]);
        }
        assert(events.last() == events[events.len() - 1]);
        law_a_handshake_waits_for_the_rate(m, front);
    }
}

/// The rate at which the connection is opened is the sample rate that the receiver named, as a
/// count, whether or not an audio rate came with it; a command that cannot be sent ends the
/// handshake.
pub proof fn law_the_named_rate_is_taken(m: HandshakeModel, audio: Option<Dyadic>, rate: Dyadic)
    requires
        m.wf(),
        m.phase is Reading,
    ensures
        ({
            let (first, action) = m.step(HandshakeEvent::Rates(audio, Some(rate)));
            let ready = if audio is Some {
                first.step(HandshakeEvent::Sent).0
            } else {
                first
            };
            &&& audio is Some ==> action == HandshakeActionModel::Send(
                "SET AR OK in="@ + crate::kiwi_wire::signed_decimal(audio->0.as_i64())
                    + " out=96000"@,
            )
            &&& ready.phase == (HandshakePhase::Setup {
                command: 0,
                rate: rate.as_count() as usize,
            })
            &&& first.step(HandshakeEvent::SendFailed).1 == HandshakeActionModel::Fail(
                HandshakeFailure::Send,
            )
            &&& first.step(HandshakeEvent::SendFailed).0.phase is Over
        }),
{
}

/// After the password, and after an audio rate that came without a sample rate, the handshake
/// reads on.
pub proof fn law_a_handshake_reads_on(m: HandshakeModel)
    requires
        m.wf(),
        m.phase is Auth || m.phase == HandshakePhase::Acking(None),
    ensures
        m.step(HandshakeEvent::Sent).1 is ReadFrame,
        m.step(HandshakeEvent::Sent).0.phase is Reading,
        m.step(HandshakeEvent::Sent).0.freq_khz == m.freq_khz,
{
}

/// A handshake has all of its forty reads before it when the password is sent.
pub proof fn law_a_handshake_begins_with_the_password(
    freq_khz: Seq<char>,
    events: Seq<HandshakeEvent>,
)
    requires
        forall|k: int|
            0 <= k < events.len() ==> #[trigger] events[k] is Silence || events[k] is Other
                || events[k] == HandshakeEvent::Rates(None, None),
        never_stalled(events),
    ensures
        ({
            let then = after_handshake(
                HandshakeModel::fresh(freq_khz).step(HandshakeEvent::Sent).0,
                events,
            );
            &&& HandshakeModel::fresh(freq_khz).phase is Auth
            &&& then.phase is Reading
            &&& then.freq_khz == freq_khz
            &&& then.step(HandshakeEvent::Silence).1 is Fail <==> silent_reads(events) + 1 == 40
        }),
{
    let first = HandshakeModel::fresh(freq_khz).step(HandshakeEvent::Sent).0;
    law_a_handshake_waits_for_the_rate(first, events);
}

} // verus!
