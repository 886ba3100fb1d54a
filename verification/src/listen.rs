//! The streaming loop: fill the startup buffer, then read, decode and publish chunk by
//! chunk until the source ends, fails, or a stop is asked for.
//!
//! [`ListenLoop`] decides; the caller reads, decodes and publishes, and comes back with
//! what happened.

use crate::dyadic::{nearest, numerator, Dyadic};
use std::sync::atomic::AtomicU64;
use std::sync::Arc;
use vstd::arithmetic::power2::*;
use vstd::prelude::*;

verus! {

/// Samples read per chunk.
pub const CHUNK_SAMPLES: usize = 2048;

/// Handles into a running loop for a caller that watches it from elsewhere.
#[derive(Clone)]
pub struct ListenObservers {
    /// Set to the number of tracks being decoded after each chunk.
    pub active_tracks: Option<Arc<AtomicU64>>,
}

impl Default for ListenObservers {
    fn default() -> (observers: Self)
        ensures
            observers.active_tracks is None,
    {
        ListenObservers { active_tracks: None }
    }
}

/// Samples in the startup buffer: two seconds.
pub fn calibration_samples(fs: Dyadic) -> (n: usize)
    requires
        fs matches Dyadic::Finite { exponent, .. } ==> exponent < i32::MAX,
    ensures
        n == (if fs is NotANumber || fs.below_zero() {
            0
        } else if fs is Infinite || nearest(2 * fs.num() as int, fs.den() as int) > usize::MAX {
            usize::MAX as int
        } else {
            nearest(2 * fs.num() as int, fs.den() as int)
        }),
{
    match fs {
        Dyadic::NotANumber => 0,
        Dyadic::Infinite { negative } => if negative {
            0
        } else {
            usize::MAX
        },
        Dyadic::Finite { negative, mantissa, exponent } => {
            let twice = Dyadic::Finite { negative, mantissa, exponent: exponent + 1 };
            proof {
                lemma_doubling(mantissa as nat, exponent as int);
                crate::dyadic::lemma_nearest_of_equal_fractions(
                    twice.num() as int,
                    twice.den() as int,
                    2 * fs.num() as int,
                    fs.den() as int,
                );
            }
            twice.to_count()
        },
    }
}

/// One step of the exponent doubles the number.
pub proof fn lemma_doubling(mantissa: nat, exponent: int)
    ensures
        numerator(mantissa, exponent + 1) * crate::dyadic::denominator(exponent) == 2 * numerator(
            mantissa,
            exponent,
        ) * crate::dyadic::denominator(exponent + 1),
        crate::dyadic::denominator(exponent) > 0,
        crate::dyadic::denominator(exponent + 1) > 0,
{
    if exponent >= 0 {
        lemma_pow2_unfold((exponent + 1) as nat);
        let p = pow2(exponent as nat);
        assert(mantissa * (2 * p) * 1 == 2 * (mantissa * p) * 1) by (nonlinear_arith);
    } else if exponent == -1 {
        lemma2_to64();
        assert(mantissa * pow2(0) * pow2(1) == 2 * mantissa * 1) by (nonlinear_arith)
            requires
                pow2(0) == 1,
                pow2(1) == 2,
        ;
    } else {
        let k = (-exponent) as nat;
        lemma_pow2_unfold(k);
        lemma_pow2_pos(k);
        lemma_pow2_pos((k - 1) as nat);
        let p = pow2((k - 1) as nat);
        assert(mantissa * (2 * p) == 2 * mantissa * p) by (nonlinear_arith);
    }
}

/// Hops that the lead-in of `pad_samples` zeros takes.
pub open spec fn spec_pad_hops(pad_samples: nat, hop: nat) -> nat {
    if pad_samples % hop == 0 {
        pad_samples / hop
    } else {
        pad_samples / hop + 1
    }
}

/// Hops that the lead-in of `pad_samples` zeros takes.
pub fn pad_hops(pad_samples: u64, hop: u64) -> (hops: u64)
    requires
        hop > 0,
    ensures
        hops == spec_pad_hops(pad_samples as nat, hop as nat),
        (hops as int) * hop >= pad_samples,
        hops > 0 ==> (hops - 1) * hop < pad_samples,
{
    proof {
        vstd::arithmetic::div_mod::lemma_fundamental_div_mod(pad_samples as int, hop as int);
        vstd::arithmetic::div_mod::lemma_mod_bound(pad_samples as int, hop as int);
        vstd::arithmetic::div_mod::lemma_div_nonincreasing(pad_samples as int, hop as int);
    }
    let whole: u64 = pad_samples / hop;
    let ghost q = whole as int;
    proof {
        assert(hop * q == q * hop) by (nonlinear_arith);
        assert((q + 1) * hop == q * hop + hop) by (nonlinear_arith);
        assert((q - 1) * hop == q * hop - hop) by (nonlinear_arith);
    }
    if pad_samples % hop == 0 {
        whole
    } else {
        proof {
            assert(whole < u64::MAX) by (nonlinear_arith)
                requires
                    pad_samples == hop * whole + pad_samples % hop,
                    pad_samples % hop > 0,
                    hop > 0,
                    pad_samples <= u64::MAX,
            ;
        }
        whole + 1
    }
}

/// The sample that hop `m` stands for: hops of the lead-in all stand for the first.
pub open spec fn spec_hop_sample_ts(m: nat, pad_hops: nat, hop: nat) -> nat {
    if m <= pad_hops {
        0
    } else {
        ((m - pad_hops) * hop) as nat
    }
}

/// The sample that hop `m` stands for.
pub fn hop_sample_ts(m: u64, pad_hops: u64, hop: u64) -> (ts: u64)
    requires
        spec_hop_sample_ts(m as nat, pad_hops as nat, hop as nat) <= u64::MAX,
    ensures
        ts == spec_hop_sample_ts(m as nat, pad_hops as nat, hop as nat),
{
    if m <= pad_hops {
        0
    } else {
        (m - pad_hops) * hop
    }
}

/// Later hops never stand for earlier samples.
pub proof fn law_hop_times_do_not_go_back(m: nat, later: nat, pad_hops: nat, hop: nat)
    requires
        m <= later,
    ensures
        spec_hop_sample_ts(m, pad_hops, hop) <= spec_hop_sample_ts(later, pad_hops, hop),
{
    if m > pad_hops {
        assert((m - pad_hops) * hop <= (later - pad_hops) * hop) by (nonlinear_arith)
            requires
                m <= later,
                hop >= 0,
        ;
    } else if later > pad_hops {
        assert((later - pad_hops) * hop >= 0) by (nonlinear_arith)
            requires
                later > pad_hops,
                hop >= 0,
        ;
    }
}

/// What happened outside.
#[derive(Debug, Clone, Copy, PartialEq, Eq, Structural)]
pub enum ListenEvent {
    /// The loop starts.
    Begin,
    /// The source gave so many samples; none means that it has ended.
    Read(usize),
    /// The source failed.
    ReadFailed,
    /// What was to be decoded is decoded, and so many tracks are being decoded now.
    Processed(usize),
    /// Whether a stop was asked for.
    StopAsked(bool),
    /// Every decoder is flushed.
    Flushed,
}

/// What is to be done next.
#[derive(Debug, Clone, Copy, PartialEq, Eq, Structural)]
pub enum ListenAction {
    /// Read into the startup buffer from this place on.
    FillFrom(usize),
    /// Decode the lead-in of zeros.
    ProcessPadding,
    /// Decode the startup buffer.
    ProcessCalibration,
    /// Look whether a stop was asked for.
    LookForStop,
    /// Read the next chunk.
    ReadChunk,
    /// Decode so many samples of the chunk.
    ProcessChunk(usize),
    /// Flush every decoder.
    Flush,
    /// The loop is over.
    Finish,
    /// The source ended while the startup buffer was being filled: give up.
    GiveUpCalibration,
    /// The source failed: hand its error on.
    GiveUpRead,
    /// What happened does not fit what was asked for.
    Ignore,
}

/// Where the loop stands.
#[derive(Debug, Clone, Copy, PartialEq, Eq, Structural)]
pub enum ListenPhase {
    Idle,
    Filling,
    Padding,
    Calibration,
    Watching,
    Reading,
    Decoding,
    Flushing,
    Over,
}

/// One decision: what to publish, if anything, and what to do next.
#[derive(Debug, Clone, Copy, PartialEq, Eq, Structural)]
pub struct ListenStep {
    /// What the gauge is set to, if it is.
    pub publish: Option<usize>,
    /// The caller is told so too.
    pub announce: bool,
    pub action: ListenAction,
}

/// The streaming loop's state.
#[derive(Debug, Clone, Copy, PartialEq, Eq, Structural)]
pub struct ListenLoop {
    pub phase: ListenPhase,
    /// Size of the startup buffer.
    pub wanted: usize,
    /// How much of it is filled.
    pub filled: usize,
    /// What observers were last told.
    pub published: usize,
}

impl ListenLoop {
    pub open spec fn wf(self) -> bool {
        &&& self.filled <= self.wanted
        &&& self.phase == ListenPhase::Idle ==> self.filled == 0
        &&& self.phase == ListenPhase::Filling ==> self.filled < self.wanted
        &&& (self.phase == ListenPhase::Padding || self.phase == ListenPhase::Calibration
            || self.phase == ListenPhase::Watching || self.phase == ListenPhase::Reading
            || self.phase == ListenPhase::Decoding || self.phase == ListenPhase::Flushing)
            ==> self.filled == self.wanted
        &&& (self.phase == ListenPhase::Idle || self.phase == ListenPhase::Filling || self.phase
            == ListenPhase::Padding || self.phase == ListenPhase::Over) ==> self.published == 0
    }

    /// The source kept to the room that it was given.
    pub open spec fn allows(self, event: ListenEvent) -> bool {
        match event {
            ListenEvent::Read(n) => self.phase == ListenPhase::Filling ==> n <= self.wanted
                - self.filled,
            _ => true,
        }
    }

    pub open spec fn decision(self, event: ListenEvent) -> ListenStep {
        match (self.phase, event) {
            (ListenPhase::Idle, ListenEvent::Begin) => ListenStep {
                publish: Some(0),
                announce: false,
                action: if self.wanted == 0 {
                    ListenAction::ProcessPadding
                } else {
                    ListenAction::FillFrom(0)
                },
            },
            (ListenPhase::Filling, ListenEvent::Read(n)) => ListenStep {
                publish: None,
                announce: false,
                action: if n == 0 {
                    ListenAction::GiveUpCalibration
                } else if self.filled + n < self.wanted {
                    ListenAction::FillFrom((self.filled + n) as usize)
                } else {
                    ListenAction::ProcessPadding
                },
            },
            (ListenPhase::Filling, ListenEvent::ReadFailed) => ListenStep {
                publish: None,
                announce: false,
                action: ListenAction::GiveUpRead,
            },
            (ListenPhase::Padding, ListenEvent::Processed(n)) => ListenStep {
                publish: Some(n),
                announce: true,
                action: ListenAction::ProcessCalibration,
            },
            (ListenPhase::Calibration, ListenEvent::Processed(n)) => ListenStep {
                publish: Some(n),
                announce: true,
                action: ListenAction::LookForStop,
            },
            (ListenPhase::Watching, ListenEvent::StopAsked(stop)) => ListenStep {
                publish: None,
                announce: false,
                action: if stop {
                    ListenAction::Flush
                } else {
                    ListenAction::ReadChunk
                },
            },
            (ListenPhase::Reading, ListenEvent::Read(n)) => ListenStep {
                publish: None,
                announce: false,
                action: if n == 0 {
                    ListenAction::Flush
                } else {
                    ListenAction::ProcessChunk(n)
                },
            },
            (ListenPhase::Reading, ListenEvent::ReadFailed) => ListenStep {
                publish: Some(0),
                announce: true,
                action: ListenAction::GiveUpRead,
            },
            (ListenPhase::Decoding, ListenEvent::Processed(n)) => ListenStep {
                publish: Some(n),
                announce: true,
                action: ListenAction::LookForStop,
            },
            (ListenPhase::Flushing, ListenEvent::Flushed) => ListenStep {
                publish: Some(0),
                announce: true,
                action: ListenAction::Finish,
            },
            _ => ListenStep { publish: None, announce: false, action: ListenAction::Ignore },
        }
    }

    /// The phase in which an action is carried out.
    pub open spec fn phase_for(self, action: ListenAction) -> ListenPhase {
        match action {
            ListenAction::FillFrom(_) => ListenPhase::Filling,
            ListenAction::ProcessPadding => ListenPhase::Padding,
            ListenAction::ProcessCalibration => ListenPhase::Calibration,
            ListenAction::LookForStop => ListenPhase::Watching,
            ListenAction::ReadChunk => ListenPhase::Reading,
            ListenAction::ProcessChunk(_) => ListenPhase::Decoding,
            ListenAction::Flush => ListenPhase::Flushing,
            ListenAction::Finish => ListenPhase::Over,
            ListenAction::GiveUpCalibration => ListenPhase::Over,
            ListenAction::GiveUpRead => ListenPhase::Over,
            ListenAction::Ignore => self.phase,
        }
    }

    /// The loop after what happened.
    pub open spec fn after(self, event: ListenEvent) -> Self {
        let step = self.decision(event);
        ListenLoop {
            phase: self.phase_for(step.action),
            wanted: self.wanted,
            filled: match (self.phase, event) {
                (ListenPhase::Filling, ListenEvent::Read(n)) => (self.filled + n) as usize,
                _ => self.filled,
            },
            published: match step.publish {
                Some(n) => n,
                None => self.published,
            },
        }
    }

    /// A loop that has not begun, with a startup buffer of `wanted` samples.
    pub fn new(wanted: usize) -> (l: Self)
        ensures
            l == (ListenLoop { phase: ListenPhase::Idle, wanted, filled: 0, published: 0 }),
            l.wf(),
    {
        ListenLoop { phase: ListenPhase::Idle, wanted, filled: 0, published: 0 }
    }

    /// Take what happened, and say what to publish and what to do next.
    pub fn next(&mut self, event: ListenEvent) -> (step: ListenStep)
        requires
            old(self).wf(),
            old(self).allows(event),
        ensures
            step == old(self).decision(event),
            *final(self) == old(self).after(event),
            final(self).wf(),
    {
        let mut publish: Option<usize> = None;
        let mut action = ListenAction::Ignore;
        let starts = matches!(event, ListenEvent::Begin);
        match (self.phase, event) {
            (ListenPhase::Idle, ListenEvent::Begin) => {
                publish = Some(0);
                if self.wanted == 0 {
                    action = ListenAction::ProcessPadding;
                } else {
                    action = ListenAction::FillFrom(0);
                }
            },
            (ListenPhase::Filling, ListenEvent::Read(n)) => {
                self.filled = self.filled + n;
                if n == 0 {
                    action = ListenAction::GiveUpCalibration;
                } else if self.filled < self.wanted {
                    action = ListenAction::FillFrom(self.filled);
                } else {
                    action = ListenAction::ProcessPadding;
                }
            },
            (ListenPhase::Filling, ListenEvent::ReadFailed) => {
                action = ListenAction::GiveUpRead;
            },
            (ListenPhase::Padding, ListenEvent::Processed(n)) => {
                publish = Some(n);
                action = ListenAction::ProcessCalibration;
            },
            (ListenPhase::Calibration, ListenEvent::Processed(n)) => {
                publish = Some(n);
                action = ListenAction::LookForStop;
            },
            (ListenPhase::Watching, ListenEvent::StopAsked(stop)) => {
                if stop {
                    action = ListenAction::Flush;
                } else {
                    action = ListenAction::ReadChunk;
                }
            },
            (ListenPhase::Reading, ListenEvent::Read(n)) => {
                if n == 0 {
                    action = ListenAction::Flush;
                } else {
                    action = ListenAction::ProcessChunk(n);
                }
            },
            (ListenPhase::Reading, ListenEvent::ReadFailed) => {
                publish = Some(0);
                action = ListenAction::GiveUpRead;
            },
            (ListenPhase::Decoding, ListenEvent::Processed(n)) => {
                publish = Some(n);
                action = ListenAction::LookForStop;
            },
            (ListenPhase::Flushing, ListenEvent::Flushed) => {
                publish = Some(0);
                action = ListenAction::Finish;
            },
            _ => {},
        }
        if let Some(n) = publish {
            self.published = n;
        }
        let announce = publish.is_some() && !starts;
        self.phase = match action {
            ListenAction::FillFrom(_) => ListenPhase::Filling,
            ListenAction::ProcessPadding => ListenPhase::Padding,
            ListenAction::ProcessCalibration => ListenPhase::Calibration,
            ListenAction::LookForStop => ListenPhase::Watching,
            ListenAction::ReadChunk => ListenPhase::Reading,
            ListenAction::ProcessChunk(_) => ListenPhase::Decoding,
            ListenAction::Flush => ListenPhase::Flushing,
            ListenAction::Finish => ListenPhase::Over,
            ListenAction::GiveUpCalibration => ListenPhase::Over,
            ListenAction::GiveUpRead => ListenPhase::Over,
            ListenAction::Ignore => self.phase,
        };
        ListenStep { publish, announce, action }
    }
}

/// A loop after a history of events.
pub open spec fn run(l: ListenLoop, events: Seq<ListenEvent>) -> ListenLoop
    decreases events.len(),
{
    if events.len() == 0 {
        l
    } else {
        run(l, events.drop_last()).after(events.last())
    }
}

/// The source kept to the room that it was given all along.
pub open spec fn honest(l: ListenLoop, events: Seq<ListenEvent>) -> bool
    decreases events.len(),
{
    events.len() == 0 || honest(l, events.drop_last()) && run(l, events.drop_last()).allows(
        events.last(),
    )
}

/// However the loop ends, observers are left with zero; and as long as it has not decoded
/// anything they have seen nothing else.
pub proof fn law_observers_are_left_with_zero(wanted: usize, events: Seq<ListenEvent>)
    requires
        honest(
            ListenLoop { phase: ListenPhase::Idle, wanted, filled: 0, published: 0 },
            events,
        ),
    ensures
        ({
            let l = run(
                ListenLoop { phase: ListenPhase::Idle, wanted, filled: 0, published: 0 },
                events,
            );
            &&& l.wf()
            &&& l.phase == ListenPhase::Over ==> l.published == 0
        }),
    decreases events.len(),
{
    if events.len() > 0 {
        law_observers_are_left_with_zero(wanted, events.drop_last());
    }
}

/// Every batch that was decoded is published and announced, also when the count has not
/// changed.
pub proof fn law_every_batch_is_published(l: ListenLoop, tracks: usize)
    requires
        l.decision(ListenEvent::Processed(tracks)).action != ListenAction::Ignore,
    ensures
        l.decision(ListenEvent::Processed(tracks)).publish == Some(tracks),
        l.decision(ListenEvent::Processed(tracks)).announce,
        l.after(ListenEvent::Processed(tracks)).published == tracks,
{
}

/// Whatever is published is announced, but for the zero that the gauge starts with.
pub proof fn law_only_the_start_is_not_announced(l: ListenLoop, event: ListenEvent)
    ensures
        l.decision(event).announce <==> l.decision(event).publish is Some && event
            != ListenEvent::Begin,
{
}

/// Once the loop is over nothing starts it again.
pub proof fn law_over_is_over(l: ListenLoop, event: ListenEvent)
    requires
        l.phase == ListenPhase::Over,
    ensures
        l.after(event) == l,
        l.decision(event) == (ListenStep {
            publish: None,
            announce: false,
            action: ListenAction::Ignore,
        }),
{
}

/// The hops of the lead-in stand for the first sample, and from its end on every hop stands for
/// a sample that comes one hop behind that of the hop before.
pub proof fn law_hops_are_evenly_spaced(m: nat, pad_hops: nat, hop: nat)
    ensures
        m <= pad_hops ==> spec_hop_sample_ts(m, pad_hops, hop) == 0,
        m >= pad_hops ==> spec_hop_sample_ts(m + 1, pad_hops, hop) == spec_hop_sample_ts(
            m,
            pad_hops,
            hop,
        ) + hop,
{
    if m >= pad_hops {
        assert((m + 1 - pad_hops) * hop == (m - pad_hops) * hop + hop) by (nonlinear_arith);
        assert((m - pad_hops) * hop >= 0) by (nonlinear_arith)
            requires
                m >= pad_hops,
                hop >= 0,
        ;
        if m == pad_hops {
            assert(0 * hop == 0) by (nonlinear_arith);
        }
    }
}

/// The lead-in takes as many hops as hold all its samples, and no more.
pub proof fn law_the_lead_in_is_covered(pad_samples: nat, hop: nat)
    requires
        hop > 0,
    ensures
        spec_pad_hops(pad_samples, hop) * hop >= pad_samples,
        spec_pad_hops(pad_samples, hop) > 0 ==> (spec_pad_hops(pad_samples, hop) - 1) * hop
            < pad_samples,
{
    vstd::arithmetic::div_mod::lemma_fundamental_div_mod(pad_samples as int, hop as int);
    vstd::arithmetic::div_mod::lemma_mod_bound(pad_samples as int, hop as int);
    let q = pad_samples as int / hop as int;
    assert(hop * q == q * hop) by (nonlinear_arith);
    assert((q + 1) * hop == q * hop + hop) by (nonlinear_arith);
    assert((q - 1) * hop == q * hop - hop) by (nonlinear_arith);
}

/// How many samples the reads among the events brought.
pub open spec fn samples_read(events: Seq<ListenEvent>) -> int
    decreases events.len(),
{
    if events.len() == 0 {
        0
    } else {
        samples_read(events.drop_last()) + match events.last() {
            ListenEvent::Read(n) => n as int,
            _ => 0,
        }
    }
}

/// The startup buffer is filled without a gap: while it is being filled, what is read next goes
/// behind all that was read so far, and it is decoded, behind the lead-in, once it is full and
/// not before. Where the source ends or fails before, the loop gives up.
pub proof fn law_the_startup_buffer_is_filled_without_a_gap(
    wanted: usize,
    reads: Seq<ListenEvent>,
    n: usize,
)
    requires
        wanted > 0,
        samples_read(reads) < wanted,
        forall|k: int|
            0 <= k < reads.len() ==> (#[trigger] reads[k] matches ListenEvent::Read(m) && m > 0),
        samples_read(reads) + n <= wanted,
    ensures
        ({
            let idle = ListenLoop { phase: ListenPhase::Idle, wanted, filled: 0, published: 0 };
            let filling = run(idle.after(ListenEvent::Begin), reads);
            let step = filling.decision(ListenEvent::Read(n));
            let then = filling.after(ListenEvent::Read(n));
            &&& idle.decision(ListenEvent::Begin).action == ListenAction::FillFrom(0)
            &&& filling.phase == ListenPhase::Filling
            &&& filling.filled == samples_read(reads)
            &&& filling.wanted == wanted
            &&& n == 0 ==> step.action == ListenAction::GiveUpCalibration
            &&& 0 < n < wanted - samples_read(reads) ==> step.action == ListenAction::FillFrom(
                (samples_read(reads) + n) as usize,
            )
            &&& n == wanted - samples_read(reads) ==> step.action == ListenAction::ProcessPadding
            &&& n == wanted - samples_read(reads) ==> then.decision(
                ListenEvent::Processed(0),
            ).action == ListenAction::ProcessCalibration
            &&& filling.decision(ListenEvent::ReadFailed).action == ListenAction::GiveUpRead
        }),
    decreases reads.len(),
{
    if reads.len() > 0 {
        let front = reads.drop_last();
        assert forall|k: int| 0 <= k < front.len() implies (#[trigger] front[k] matches
            ListenEvent::Read(m) && m > 0) by {
            assert(front[k] == reads[k]);
        }
        assert(reads[reads.len() - 1] == reads.last());
        if let ListenEvent::Read(m) = reads.last() {
            law_the_startup_buffer_is_filled_without_a_gap(wanted, front, m);
        }
    }
}

/// What is read is decoded, all of it and before anything else is read. A stop that was asked
/// for, like the end of the source, has every decoder flushed before the loop is over; a
/// source that fails is not read again.
pub proof fn law_what_is_read_is_decoded(l: ListenLoop, n: usize, tracks: usize, stop: bool)
    ensures
        l.phase == ListenPhase::Watching ==> {
            let (step, next) = (
                l.decision(ListenEvent::StopAsked(stop)),
                l.after(ListenEvent::StopAsked(stop)),
            );
            &&& step.action == (if stop {
                ListenAction::Flush
            } else {
                ListenAction::ReadChunk
            })
            &&& stop ==> next.decision(ListenEvent::Flushed).action == ListenAction::Finish
            &&& !stop ==> next.phase == ListenPhase::Reading
        },
        l.phase == ListenPhase::Reading ==> {
            let next = l.after(ListenEvent::Read(n));
            &&& n > 0 ==> l.decision(ListenEvent::Read(n)).action == ListenAction::ProcessChunk(n)
            &&& n > 0 ==> next.decision(ListenEvent::Processed(tracks)).action
                == ListenAction::LookForStop
            &&& n > 0 ==> next.after(ListenEvent::Processed(tracks)).phase == ListenPhase::Watching
            &&& n == 0 ==> l.decision(ListenEvent::Read(n)).action == ListenAction::Flush
            &&& n == 0 ==> next.decision(ListenEvent::Flushed).action == ListenAction::Finish
            &&& l.decision(ListenEvent::ReadFailed).action == ListenAction::GiveUpRead
            &&& l.after(ListenEvent::ReadFailed).phase == ListenPhase::Over
        },
        l.phase == ListenPhase::Calibration ==> {
            &&& l.decision(ListenEvent::Processed(tracks)).action == ListenAction::LookForStop
            &&& l.after(ListenEvent::Processed(tracks)).phase == ListenPhase::Watching
        },
{
}

} // verus!
