//! A receiver that streams over the network: what it is configured with, how its datagrams
//! are taken in, and what is sent to keep it going.
//!
//! The stream carries no usable sequence number, so a lost datagram shows only in the time
//! between two arrivals. One datagram carries every receiver, so a loss is one of all.

use crate::dyadic::Dyadic;
use crate::metis::{
    build_cc_packet, build_cc_usb_frame, build_general_cc, build_rx_freq_cc, cc_sample_rate_code,
    demux_metis_packet, samples_per_usb_frame, validate_ddc_config, HpsdrError, RawIq,
    MAX_RECEIVERS, USB_FRAMES_PER_PACKET,
};
use vstd::prelude::*;

verus! {

/// How long one read of the socket waits.
pub const READ_TIMEOUT_NS: u64 = 250_000_000;

/// This many reads in a row without a datagram end the stream.
pub const MAX_CONSECUTIVE_TIMEOUTS: u32 = 40;

/// This many datagrams in a row that cannot be used end the stream.
pub const MAX_CONSECUTIVE_MALFORMED: u32 = 10_000;

/// Larger than any datagram, so that none is cut to a length that is right.
pub const RECV_BUF_LEN: usize = 65536;

/// The receiver hears from us at least this often.
pub const KEEPALIVE_INTERVAL_NS: u64 = 1_000_000_000;

/// What went wrong on a stream.
#[derive(Debug, Clone, Copy, PartialEq, Eq, Structural)]
pub struct GapStats {
    pub dropped_packets: u64,
    pub gaps_detected: u64,
    /// Datagrams that were thrown away: of the wrong length, or without the sync bytes.
    pub malformed_packets: u64,
}

impl Default for GapStats {
    fn default() -> (s: GapStats)
        ensures
            s.dropped_packets == 0,
            s.gaps_detected == 0,
            s.malformed_packets == 0,
    {
        GapStats { dropped_packets: 0, gaps_detected: 0, malformed_packets: 0 }
    }
}

/// Tells lost datagrams by the time between arrivals.
pub struct GapDetector {
    expected_interval: u64,
    tolerance: Dyadic,
    last_arrival: Option<u64>,
    stats: GapStats,
}

/// What a gap detector knows.
pub ghost struct GapModel {
    /// Nanoseconds from one datagram to the next.
    pub interval: int,
    pub tolerance: Dyadic,
    pub last: Option<int>,
    pub dropped: int,
    pub gaps: int,
    pub malformed: int,
}

/// Nanoseconds from one datagram to the next; a second where nothing tells.
pub open spec fn expected_interval(sample_rate_hz: Dyadic, receivers: nat) -> int {
    let samples = 2 * crate::metis::instants_per_frame(receivers) as int;
    if samples == 0 || (!sample_rate_hz.above_zero() && sample_rate_hz
        != (Dyadic::Infinite { negative: false })) {
        1_000_000_000
    } else if sample_rate_hz is Infinite {
        0
    } else {
        crate::dyadic::nearest(
            (samples * 1_000_000_000) * sample_rate_hz.den(),
            sample_rate_hz.num() as int,
        )
    }
}

impl GapModel {
    /// A detector that has seen nothing yet.
    pub open spec fn fresh(sample_rate_hz: Dyadic, receivers: nat, tolerance: Dyadic) -> GapModel {
        GapModel {
            interval: expected_interval(sample_rate_hz, receivers),
            tolerance,
            last: None,
            dropped: 0,
            gaps: 0,
            malformed: 0,
        }
    }

    /// Time since the last arrival.
    pub open spec fn elapsed(self, now: int) -> int {
        match self.last {
            Some(last) => if now > last {
                now - last
            } else {
                0
            },
            None => 0,
        }
    }

    /// An arrival at `now` is so late that something was lost before it: it comes more than
    /// the tolerance times the interval after the last.
    pub open spec fn late(self, now: int) -> bool {
        &&& self.last is Some
        &&& self.interval > 0
        &&& self.elapsed(now) * self.tolerance.den() > self.interval * self.tolerance.num()
    }

    /// How many datagrams are taken for lost before a late arrival.
    pub open spec fn missed(self, now: int) -> int {
        let intervals = crate::dyadic::nearest(self.elapsed(now), self.interval);
        if intervals <= 2 {
            1
        } else {
            intervals - 1
        }
    }

    /// After an arrival at `now`.
    pub open spec fn observed(self, now: int) -> GapModel {
        if self.late(now) {
            GapModel {
                last: Some(now),
                dropped: self.dropped + self.missed(now),
                gaps: self.gaps + 1,
                ..self
            }
        } else {
            GapModel { last: Some(now), ..self }
        }
    }

    /// The counters can take an arrival at `now`, and a datagram that is thrown away.
    pub open spec fn has_room(self, now: int) -> bool {
        &&& self.dropped + self.elapsed(now) <= u64::MAX
        &&& self.gaps < u64::MAX
        &&& self.malformed < u64::MAX
    }
}

impl GapDetector {
    /// What the detector knows.
    pub closed spec fn view(&self) -> GapModel {
        GapModel {
            interval: self.expected_interval as int,
            tolerance: self.tolerance,
            last: match self.last_arrival {
                Some(t) => Some(t as int),
                None => None,
            },
            dropped: self.stats.dropped_packets as int,
            gaps: self.stats.gaps_detected as int,
            malformed: self.stats.malformed_packets as int,
        }
    }

    /// The tolerance is a number.
    pub closed spec fn wf(&self) -> bool {
        self.tolerance is Finite && !self.tolerance.below_zero()
    }

    /// A tolerance of 1.5 takes an arrival for late that comes more than one and a half
    /// intervals after the last.
    pub fn new(sample_rate_hz: Dyadic, num_receivers: usize, tolerance: Dyadic) -> (d: GapDetector)
        requires
            sample_rate_hz !is NotANumber,
            tolerance is Finite,
            !tolerance.below_zero(),
            expected_interval(sample_rate_hz, num_receivers as nat) <= u64::MAX,
        ensures
            d.wf(),
            d@ == GapModel::fresh(sample_rate_hz, num_receivers as nat, tolerance),
    {
        let samples: usize = USB_FRAMES_PER_PACKET * samples_per_usb_frame(num_receivers);
        let interval: u64 = if samples == 0 {
            1_000_000_000
        } else if sample_rate_hz.is_positive() {
            match sample_rate_hz.divide(samples as u128 * 1_000_000_000) {
                Some(ns) => ns,
                None => 0,
            }
        } else {
            match sample_rate_hz {
                Dyadic::Infinite { negative: false } => 0,
                _ => 1_000_000_000,
            }
        };
        GapDetector {
            expected_interval: interval,
            tolerance,
            last_arrival: None,
            stats: GapStats { dropped_packets: 0, gaps_detected: 0, malformed_packets: 0 },
        }
    }

    /// Counts a datagram that was thrown away.
    pub fn record_malformed(&mut self)
        requires
            old(self)@.malformed < u64::MAX,
        ensures
            final(self)@ == (GapModel { malformed: old(self)@.malformed + 1, ..old(self)@ }),
            old(self).wf() ==> final(self).wf(),
    {
        self.stats.malformed_packets = self.stats.malformed_packets + 1;
    }

    /// Takes note of an arrival at `now`; true where it ends a gap.
    pub fn observe(&mut self, now: u64) -> (late: bool)
        requires
            old(self).wf(),
            old(self)@.has_room(now as int),
        ensures
            final(self).wf(),
            late == old(self)@.late(now as int),
            final(self)@ == old(self)@.observed(now as int),
    {
        let mut late: bool = false;
        if let Some(last) = self.last_arrival {
            let elapsed: u64 = if now > last {
                now - last
            } else {
                0
            };
            let over: bool = self.tolerance.product_below(self.expected_interval, elapsed);
            if over && self.expected_interval > 0 {
                proof {
                    lemma_late_is_after(self@, now as int);
                }
                let interval: u128 = self.expected_interval as u128;
                let intervals: u128 = (2 * elapsed as u128 + interval) / (2 * interval);
                proof {
                    lemma_intervals_bounded(elapsed as int, interval as int);
                }
                let missed: u64 = if intervals <= 2 {
                    1
                } else {
                    (intervals - 1) as u64
                };
                self.stats.dropped_packets = self.stats.dropped_packets + missed;
                self.stats.gaps_detected = self.stats.gaps_detected + 1;
                late = true;
            }
        }
        self.last_arrival = Some(now);
        late
    }

    /// Nanoseconds from one datagram to the next.
    pub fn expected_interval(&self) -> (ns: u64)
        ensures
            ns == self@.interval,
    {
        self.expected_interval
    }

    /// The counters.
    pub fn stats(&self) -> (s: GapStats)
        ensures
            s.dropped_packets == self@.dropped,
            s.gaps_detected == self@.gaps,
            s.malformed_packets == self@.malformed,
    {
        self.stats
    }
}

proof fn lemma_late_is_after(g: GapModel, now: int)
    requires
        g.late(now),
    ensures
        g.elapsed(now) > 0,
{
    let (num, den, i) = (g.tolerance.num() as int, g.tolerance.den() as int, g.interval);
    assert(i * num >= 0) by (nonlinear_arith)
        requires
            i > 0,
            num >= 0,
    ;
    if g.elapsed(now) == 0 {
        assert(0 * den == 0);
    }
}

proof fn lemma_intervals_bounded(elapsed: int, interval: int)
    requires
        elapsed > 0,
        interval > 0,
    ensures
        0 <= crate::dyadic::nearest(elapsed, interval) <= elapsed,
{
    let x = 2 * elapsed + interval;
    let d = 2 * interval;
    vstd::arithmetic::div_mod::lemma_fundamental_div_mod(x, d);
    vstd::arithmetic::div_mod::lemma_mod_bound(x, d);
    vstd::arithmetic::div_mod::lemma_div_pos_is_pos(x, d);
    let q = x / d;
    if q > elapsed {
        assert(d * q >= d * elapsed + d) by (nonlinear_arith)
            requires
                q >= elapsed + 1,
                d > 0,
        ;
        assert(d * elapsed >= 2 * elapsed) by (nonlinear_arith)
            requires
                d >= 2,
                elapsed > 0,
        ;
    }
}

/// How a receiver is reached and set up.
#[derive(Debug)]
pub struct HpsdrConfig {
    pub host: String,
    pub port: u16,
    pub ddc_count: usize,
    pub sample_rate_hz: Dyadic,
    /// One frequency for each receiver.
    pub center_freq_hz: Vec<Dyadic>,
}

/// The first frequency from `from` on that cannot be tuned to.
pub open spec fn first_untunable(freqs: Seq<Dyadic>, from: int) -> Option<int>
    decreases freqs.len() - from,
{
    if from >= freqs.len() {
        None
    } else if !crate::metis::tunable(freqs[from]) {
        Some(from)
    } else {
        first_untunable(freqs, from + 1)
    }
}

/// What is wrong with a configuration; of several things, the one named first here.
pub open spec fn config_refusal(c: HpsdrConfig) -> Option<HpsdrError> {
    let ddc = crate::metis::ddc_config_refusal(c.sample_rate_hz, c.ddc_count);
    if ddc is Some {
        ddc
    } else if c.center_freq_hz@.len() != c.ddc_count {
        Some(
            HpsdrError::FrequencyCount {
                have: c.center_freq_hz@.len() as usize,
                need: c.ddc_count,
            },
        )
    } else if c.ddc_count > 12 {
        Some(HpsdrError::TooManyReceivers { ddc_count: c.ddc_count })
    } else if crate::metis::rate_code(c.sample_rate_hz) is None {
        Some(HpsdrError::UnsupportedRate)
    } else {
        match first_untunable(c.center_freq_hz@, 0) {
            Some(k) => Some(HpsdrError::FrequencyOutOfRange { receiver: k as usize }),
            None => None,
        }
    }
}

impl HpsdrConfig {
    /// Refuses what the receiver or the link could not do.
    pub fn validate(&self) -> (r: Result<(), HpsdrError>)
        ensures
            match config_refusal(*self) {
                None => r is Ok,
                Some(e) => r == Err::<(), HpsdrError>(e),
            },
    {
        match validate_ddc_config(self.sample_rate_hz, self.ddc_count) {
            Err(e) => {
                return Err(e);
            },
            Ok(_) => {},
        }
        if self.center_freq_hz.len() != self.ddc_count {
            return Err(
                HpsdrError::FrequencyCount {
                    have: self.center_freq_hz.len(),
                    need: self.ddc_count,
                },
            );
        }
        if self.ddc_count > MAX_RECEIVERS {
            return Err(HpsdrError::TooManyReceivers { ddc_count: self.ddc_count });
        }
        match cc_sample_rate_code(self.sample_rate_hz) {
            Err(e) => {
                return Err(e);
            },
            Ok(_) => {},
        }
        let mut k: usize = 0;
        while k < self.center_freq_hz.len()
            invariant
                k <= self.center_freq_hz@.len(),
                first_untunable(self.center_freq_hz@, 0) == first_untunable(
                    self.center_freq_hz@,
                    k as int,
                ),
                config_refusal(*self) == (match first_untunable(self.center_freq_hz@, 0) {
                    Some(k) => Some(HpsdrError::FrequencyOutOfRange { receiver: k as usize }),
                    None => None,
                }),
            decreases self.center_freq_hz@.len() - k,
        {
            match self.center_freq_hz[k].to_u32() {
                None => {
                    return Err(HpsdrError::FrequencyOutOfRange { receiver: k });
                },
                Some(_) => {},
            }
            k = k + 1;
        }
        Ok(())
    }
}

/// What comes of one try to read a datagram.
#[derive(Debug, Clone, Copy, PartialEq, Eq, Structural)]
pub enum PumpStep {
    /// Read once more.
    Again,
    /// Every receiver's queue has grown.
    Filled,
    /// Nothing came for too long: give up.
    StalledSilent,
    /// Nothing usable came for too long: give up.
    StalledMalformed,
}

/// One connected receiver: a queue of samples for each of its channels, and what is owed to
/// the device to keep it streaming.
pub struct HpsdrDevice {
    queues: Vec<Vec<RawIq>>,
    gap: GapDetector,
    last_keepalive: u64,
    live: bool,
    cc_frames: Vec<[u8; 5]>,
    cc_cursor: usize,
    cc_seq: u32,
    timeouts: u32,
    malformed: u32,
}

/// What a connected receiver is.
#[verifier::ext_equal]
pub ghost struct DeviceModel {
    pub queues: Seq<Seq<RawIq>>,
    pub gap: GapModel,
    pub last_keepalive: int,
    /// A usable datagram has come.
    pub live: bool,
    /// The control words, in the order in which they are sent.
    pub words: Seq<Seq<u8>>,
    pub cursor: int,
    pub seq: u32,
    /// Reads in a row without a datagram.
    pub timeouts: int,
    /// Datagrams in a row that could not be used.
    pub malformed: int,
}

/// The control words of a configuration: the general one, then one for each receiver.
pub open spec fn control_words(c: HpsdrConfig) -> Seq<Seq<u8>> {
    seq![crate::metis::general_word(c.sample_rate_hz, c.ddc_count as int)] + Seq::new(
        c.center_freq_hz@.len(),
        |k: int| crate::metis::freq_word(k, c.center_freq_hz@[k]),
    )
}

/// An arrival is late after one and a half intervals.
pub open spec fn three_halves() -> Dyadic {
    Dyadic::Finite { negative: false, mantissa: 3, exponent: (-1) as i32 }
}

impl DeviceModel {
    /// Just connected.
    pub open spec fn fresh(c: HpsdrConfig, now: int) -> DeviceModel {
        DeviceModel {
            queues: Seq::new(c.ddc_count as nat, |k: int| Seq::<RawIq>::empty()),
            gap: GapModel::fresh(c.sample_rate_hz, c.ddc_count as nat, three_halves()),
            last_keepalive: now,
            live: false,
            words: control_words(c),
            cursor: 0,
            seq: 0,
            timeouts: 0,
            malformed: 0,
        }
    }

    /// At the start of a wait for a datagram.
    pub open spec fn begun(self) -> DeviceModel {
        DeviceModel { timeouts: 0, malformed: 0, ..self }
    }

    /// It is time to send something.
    pub open spec fn keepalive_due(self, now: int) -> bool {
        now - self.last_keepalive >= KEEPALIVE_INTERVAL_NS
    }

    /// The next control packet: the next two control words, in turn.
    pub open spec fn next_packet(self) -> Seq<u8> {
        crate::metis::cc_packet(
            self.seq as int,
            crate::metis::cc_frame(self.words[self.cursor]),
            crate::metis::cc_frame(self.words[(self.cursor + 1) % (self.words.len() as int)]),
        )
    }

    /// After it was sent.
    pub open spec fn kept_alive(self, now: int) -> DeviceModel {
        DeviceModel {
            last_keepalive: now,
            seq: if self.seq == u32::MAX {
                0
            } else {
                (self.seq + 1) as u32
            },
            cursor: (self.cursor + 2) % (self.words.len() as int),
            ..self
        }
    }

    /// After a read that brought nothing.
    pub open spec fn waited(self) -> DeviceModel {
        DeviceModel { timeouts: self.timeouts + 1, ..self }
    }

    /// What a datagram is refused for, if it is.
    pub open spec fn refusal(self, packet: Seq<u8>) -> Option<HpsdrError> {
        crate::metis::packet_refusal(
            packet,
            self.queues.len() as usize,
            self.queues.len() as usize,
        )
    }

    /// After a datagram.
    pub open spec fn received(self, packet: Seq<u8>, now: int) -> DeviceModel {
        if self.refusal(packet) is Some {
            DeviceModel {
                timeouts: 0,
                malformed: self.malformed + 1,
                gap: GapModel { malformed: self.gap.malformed + 1, ..self.gap },
                ..self
            }
        } else {
            DeviceModel {
                queues: Seq::new(
                    self.queues.len(),
                    |rx: int|
                        self.queues[rx] + crate::metis::stream(
                            packet,
                            self.queues.len(),
                            rx,
                            2,
                        ),
                ),
                gap: self.gap.observed(now),
                live: true,
                timeouts: 0,
                malformed: 0,
                ..self
            }
        }
    }

    /// After `n` samples of one queue were handed out.
    pub open spec fn drained(self, ddc: int, n: int) -> DeviceModel {
        DeviceModel {
            queues: self.queues.update(ddc, self.queues[ddc].skip(n)),
            ..self
        }
    }
}

impl HpsdrDevice {
    /// What the device is.
    pub closed spec fn view(&self) -> DeviceModel {
        DeviceModel {
            queues: self.queues@.map_values(|q: Vec<RawIq>| q@),
            gap: self.gap@,
            last_keepalive: self.last_keepalive as int,
            live: self.live,
            words: self.cc_frames@.map_values(|w: [u8; 5]| w@),
            cursor: self.cc_cursor as int,
            seq: self.cc_seq,
            timeouts: self.timeouts as int,
            malformed: self.malformed as int,
        }
    }

    /// There are control words, and the next one is one of them.
    pub closed spec fn wf(&self) -> bool {
        &&& self.gap.wf()
        &&& 2 <= self.cc_frames@.len() <= 13
        &&& self.cc_cursor < self.cc_frames@.len()
    }

    /// Sets up what a configured receiver needs; what goes out first is the start command.
    pub fn open(cfg: &HpsdrConfig, now: u64) -> (r: Result<HpsdrDevice, HpsdrError>)
        ensures
            match config_refusal(*cfg) {
                Some(e) => r == Err::<HpsdrDevice, HpsdrError>(e),
                None => r is Ok && r->Ok_0.wf() && r->Ok_0@ == DeviceModel::fresh(
                    *cfg,
                    now as int,
                ),
            },
    {
        match cfg.validate() {
            Err(e) => {
                return Err(e);
            },
            Ok(_) => {},
        }
        let mut cc_frames: Vec<[u8; 5]> = Vec::new();
        match build_general_cc(cfg.sample_rate_hz, cfg.ddc_count) {
            Err(e) => {
                return Err(e);
            },
            Ok(w) => {
                cc_frames.push(w);
            },
        }
        let mut queues: Vec<Vec<RawIq>> = Vec::new();
        let mut rx: usize = 0;
        while rx < cfg.ddc_count
            invariant
                config_refusal(*cfg) is None,
                rx <= cfg.ddc_count,
                queues@.len() == rx,
                forall|k: int| 0 <= k < rx ==> (#[trigger] queues@[k])@ == Seq::<RawIq>::empty(),
                cc_frames@.len() == rx + 1,
                forall|k: int|
                    0 <= k <= rx ==> (#[trigger] cc_frames@[k])@ == control_words(*cfg)[k],
            decreases cfg.ddc_count - rx,
        {
            proof {
                lemma_all_tunable(cfg.center_freq_hz@, 0, rx as int);
            }
            match build_rx_freq_cc(rx, cfg.center_freq_hz[rx]) {
                Err(e) => {
                    return Err(e);
                },
                Ok(w) => {
                    cc_frames.push(w);
                },
            }
            queues.push(Vec::new());
            rx = rx + 1;
        }
        proof {
            lemma_interval_fits(cfg.sample_rate_hz, cfg.ddc_count as nat);
        }
        let tolerance: Dyadic = Dyadic::Finite { negative: false, mantissa: 3, exponent: -1 };
        let d = HpsdrDevice {
            queues,
            gap: GapDetector::new(cfg.sample_rate_hz, cfg.ddc_count, tolerance),
            last_keepalive: now,
            live: false,
            cc_frames,
            cc_cursor: 0,
            cc_seq: 0,
            timeouts: 0,
            malformed: 0,
        };
        assert(d@.words =~= control_words(*cfg));
        assert(d@.queues =~= DeviceModel::fresh(*cfg, now as int).queues);
        Ok(d)
    }

    /// The queue of a receiver is empty, so a datagram is needed.
    pub fn needs_packet(&self, ddc: usize) -> (yes: bool)
        requires
            ddc < self@.queues.len(),
        ensures
            yes == (self@.queues[ddc as int].len() == 0),
    {
        self.queues[ddc].len() == 0
    }

    /// Starts a wait for a datagram.
    pub fn begin_pump(&mut self)
        requires
            old(self).wf(),
        ensures
            final(self).wf(),
            final(self)@ == old(self)@.begun(),
    {
        self.timeouts = 0;
        self.malformed = 0;
    }

    /// Before every read: the control packet that goes out after the start command, where
    /// it is time to send both. Until both are sent, the same packet stays due.
    pub fn keepalive(&self, now: u64) -> (packet: Option<[u8; 1032]>)
        requires
            self.wf(),
        ensures
            match packet {
                Some(p) => self@.keepalive_due(now as int) && p@ == self@.next_packet(),
                None => !self@.keepalive_due(now as int),
            },
    {
        if now < self.last_keepalive || now - self.last_keepalive < KEEPALIVE_INTERVAL_NS {
            return None;
        }
        let n: usize = self.cc_frames.len();
        let a: [u8; 5] = self.cc_frames[self.cc_cursor];
        let b: [u8; 5] = self.cc_frames[(self.cc_cursor + 1) % n];
        Some(build_cc_packet(self.cc_seq, build_cc_usb_frame(a), build_cc_usb_frame(b)))
    }

    /// The start command and the control packet were sent, at `now`.
    pub fn keepalive_sent(&mut self, now: u64)
        requires
            old(self).wf(),
        ensures
            final(self).wf(),
            final(self)@ == old(self)@.kept_alive(now as int),
    {
        self.cc_seq = self.cc_seq.wrapping_add(1);
        self.cc_cursor = (self.cc_cursor + 2) % self.cc_frames.len();
        self.last_keepalive = now;
    }

    /// A read brought nothing.
    pub fn on_timeout(&mut self) -> (step: PumpStep)
        requires
            old(self).wf(),
            old(self)@.timeouts < MAX_CONSECUTIVE_TIMEOUTS,
        ensures
            final(self).wf(),
            final(self)@ == old(self)@.waited(),
            step == (if final(self)@.timeouts >= MAX_CONSECUTIVE_TIMEOUTS {
                PumpStep::StalledSilent
            } else {
                PumpStep::Again
            }),
    {
        self.timeouts = self.timeouts + 1;
        if self.timeouts >= MAX_CONSECUTIVE_TIMEOUTS {
            PumpStep::StalledSilent
        } else {
            PumpStep::Again
        }
    }

    /// A datagram came at `now`. One that cannot be used is counted and thrown away.
    pub fn on_datagram(&mut self, packet: &[u8], now: u64) -> (step: PumpStep)
        requires
            old(self).wf(),
            old(self)@.gap.has_room(now as int),
            old(self)@.malformed < MAX_CONSECUTIVE_MALFORMED,
        ensures
            final(self).wf(),
            final(self)@ == old(self)@.received(packet@, now as int),
            step == (if old(self)@.refusal(packet@) is None {
                PumpStep::Filled
            } else if final(self)@.malformed >= MAX_CONSECUTIVE_MALFORMED {
                PumpStep::StalledMalformed
            } else {
                PumpStep::Again
            }),
    {
        let n: usize = self.queues.len();
        let mut demuxed: Vec<Vec<RawIq>> = Vec::new();
        let mut k: usize = 0;
        while k < n
            invariant
                k <= n,
                demuxed@.len() == k,
                forall|j: int| 0 <= j < k ==> (#[trigger] demuxed@[j])@ == Seq::<RawIq>::empty(),
            decreases n - k,
        {
            demuxed.push(Vec::new());
            k = k + 1;
        }
        self.timeouts = 0;
        match demux_metis_packet(packet, n, &mut demuxed) {
            Err(_) => {
                self.gap.record_malformed();
                self.malformed = self.malformed + 1;
                if self.malformed >= MAX_CONSECUTIVE_MALFORMED {
                    PumpStep::StalledMalformed
                } else {
                    PumpStep::Again
                }
            },
            Ok(_) => {
                self.gap.observe(now);
                self.live = true;
                self.malformed = 0;
                self.extend_queues(&demuxed);
                proof {
                    let want = old(self)@.received(packet@, now as int);
                    assert forall|rx: int| 0 <= rx < n implies self@.queues[rx]
                        == want.queues[rx] by {
                        let part = crate::metis::stream(packet@, n as nat, rx, 2);
                        assert(demuxed@[rx]@ == Seq::<RawIq>::empty() + part);
                        assert(Seq::<RawIq>::empty() + part =~= part);
                    }
                    assert(self@.queues =~= want.queues);
                }
                PumpStep::Filled
            },
        }
    }

    /// Appends to every queue.
    fn extend_queues(&mut self, more: &Vec<Vec<RawIq>>)
        requires
            old(self).wf(),
            more@.len() == old(self)@.queues.len(),
        ensures
            final(self).wf(),
            final(self)@ == (DeviceModel {
                queues: Seq::new(
                    old(self)@.queues.len(),
                    |rx: int| old(self)@.queues[rx] + more@[rx]@,
                ),
                ..old(self)@
            }),
    {
        let mut rx: usize = 0;
        while rx < more.len()
            invariant
                rx <= more@.len(),
                more@.len() == old(self)@.queues.len(),
                old(self).wf(),
                self.wf(),
                self@ == (DeviceModel { queues: self@.queues, ..old(self)@ }),
                self@.queues.len() == old(self)@.queues.len(),
                forall|j: int|
                    0 <= j < self@.queues.len() ==> #[trigger] self@.queues[j] == (if j < rx {
                        old(self)@.queues[j] + more@[j]@
                    } else {
                        old(self)@.queues[j]
                    }),
            decreases more@.len() - rx,
        {
            let ghost before = *self;
            let mut k: usize = 0;
            while k < more[rx].len()
                invariant
                    rx < more@.len(),
                    more@.len() == before@.queues.len(),
                    before.wf(),
                    self.wf(),
                    k <= more@[rx as int]@.len(),
                    self@ == (DeviceModel {
                        queues: before@.queues.update(
                            rx as int,
                            before@.queues[rx as int] + more@[rx as int]@.take(k as int),
                        ),
                        ..before@
                    }),
                decreases more@[rx as int]@.len() - k,
            {
                let ghost prev = *self;
                let s: RawIq = more[rx][k];
                assert(self@.queues.len() == before@.queues.len());
                self.queues[rx].push(s);
                proof {
                    let m = more@[rx as int]@;
                    assert(m.take(k + 1) =~= m.take(k as int).push(m[k as int]));
                    assert(self@.queues =~= prev@.queues.update(
                        rx as int,
                        prev@.queues[rx as int].push(s),
                    ));
                    assert((before@.queues[rx as int] + m.take(k as int)).push(s)
                        =~= before@.queues[rx as int] + m.take(k + 1));
                    assert(self@.queues =~= before@.queues.update(
                        rx as int,
                        before@.queues[rx as int] + m.take(k + 1),
                    ));
                }
                k = k + 1;
            }
            proof {
                let m = more@[rx as int]@;
                assert(m.take(m.len() as int) =~= m);
            }
            rx = rx + 1;
        }
        assert(self@.queues =~= Seq::new(
            old(self)@.queues.len(),
            |rx: int| old(self)@.queues[rx] + more@[rx]@,
        ));
    }

    /// Hands out up to `max` samples of a receiver, the oldest first.
    pub fn read(&mut self, ddc: usize, max: usize) -> (samples: Vec<RawIq>)
        requires
            old(self).wf(),
            ddc < old(self)@.queues.len(),
        ensures
            final(self).wf(),
            ({
                let q = old(self)@.queues[ddc as int];
                let n = if q.len() < max {
                    q.len() as int
                } else {
                    max as int
                };
                &&& samples@ == q.take(n)
                &&& final(self)@ == old(self)@.drained(ddc as int, n)
            }),
    {
        let have: usize = self.queues[ddc].len();
        let n: usize = if have < max {
            have
        } else {
            max
        };
        let mut rest: Vec<RawIq> = self.queues[ddc].split_off(n);
        std::mem::swap(&mut rest, &mut self.queues[ddc]);
        proof {
            let q = old(self)@.queues[ddc as int];
            assert(q.take(n as int) =~= q.subrange(0, n as int));
            assert(q.skip(n as int) =~= q.subrange(n as int, q.len() as int));
            assert(self@.queues =~= old(self)@.drained(ddc as int, n as int).queues);
        }
        rest
    }

    /// The counters of the stream, one set for all receivers.
    pub fn gap_stats(&self) -> (s: GapStats)
        ensures
            s.dropped_packets == self@.gap.dropped,
            s.gaps_detected == self@.gap.gaps,
            s.malformed_packets == self@.gap.malformed,
    {
        self.gap.stats()
    }

    /// A usable datagram has come.
    pub fn confirmed_live(&self) -> (yes: bool)
        ensures
            yes == self@.live,
    {
        self.live
    }
}

/// What a device's own invariant means for its model.
pub proof fn lemma_device_model(d: &HpsdrDevice)
    requires
        d.wf(),
    ensures
        2 <= d@.words.len() <= 13,
        0 <= d@.cursor < d@.words.len(),
        d@.gap.interval >= 0,
{
}

proof fn lemma_all_tunable(freqs: Seq<Dyadic>, from: int, k: int)
    requires
        first_untunable(freqs, from) is None,
        from <= k < freqs.len(),
    ensures
        crate::metis::tunable(freqs[k]),
    decreases k - from,
{
    if from < k {
        lemma_all_tunable(freqs, from + 1, k);
    }
}

proof fn lemma_interval_fits(rate: Dyadic, receivers: nat)
    requires
        crate::metis::rate_code(rate) is Some,
    ensures
        rate !is NotANumber,
        expected_interval(rate, receivers) <= u64::MAX,
{
    let per = crate::metis::instants_per_frame(receivers) as int;
    if receivers > 0 {
        let w = crate::metis::stride(receivers) as int;
        vstd::arithmetic::div_mod::lemma_div_is_ordered_by_denominator(504, 1, w);
    }
    if rate.above_zero() && per > 0 {
        let a = 2 * per * 1_000_000_000;
        let (num, den) = (rate.num() as int, rate.den() as int);
        crate::dyadic::lemma_fraction_is_proper(rate);
        vstd::arithmetic::div_mod::lemma_fundamental_div_mod(2 * (a * den) + num, 2 * num);
        vstd::arithmetic::div_mod::lemma_mod_bound(2 * (a * den) + num, 2 * num);
        let q = (2 * (a * den) + num) / (2 * num);
        assert(q <= a + 1) by (nonlinear_arith)
            requires
                2 * (a * den) + num >= (2 * num) * q,
                den <= num,
                num > 0,
                den > 0,
                a >= 0,
        ;
    }
}

/// The device after control packets were sent at `times`.
pub open spec fn after_packets(m: DeviceModel, times: Seq<int>) -> DeviceModel
    decreases times.len(),
{
    if times.len() == 0 {
        m
    } else {
        after_packets(m, times.drop_last()).kept_alive(times.last())
    }
}

/// Which control words go out in the packets that are sent at `times`.
pub open spec fn words_sent(m: DeviceModel, times: Seq<int>) -> Seq<int>
    decreases times.len(),
{
    if times.len() == 0 {
        Seq::empty()
    } else {
        let before = after_packets(m, times.drop_last());
        words_sent(m, times.drop_last()).push(before.cursor).push(
            (before.cursor + 1) % (m.words.len() as int),
        )
    }
}

/// Control words go round: each is sent again and again, the next time in the packet after
/// half as many as there are words between it and the one whose turn it is.
pub proof fn law_every_word_has_its_turn(m: DeviceModel, word: int, times: Seq<int>)
    requires
        0 <= m.cursor < m.words.len(),
        0 <= word < m.words.len(),
        times.len() == (word - m.cursor) % (m.words.len() as int) / 2,
    ensures
        ({
            let n = m.words.len() as int;
            let then = after_packets(m, times);
            &&& then.words == m.words
            &&& then.cursor == word || (then.cursor + 1) % n == word
        }),
{
    let n = m.words.len() as int;
    let c = m.cursor;
    let away = (word - c) % n;
    lemma_distance_round(c, word, n);
    lemma_cursor_after(m, times);
    let k = times.len() as int;
    if 2 * k == away {
    } else {
        assert(2 * k + 1 == away);
        vstd::arithmetic::div_mod::lemma_add_mod_noop(c + 2 * k, 1, n);
        let here = (c + 2 * k) % n;
        vstd::arithmetic::div_mod::lemma_mod_bound(c + 2 * k, n);
        vstd::arithmetic::div_mod::lemma_mod_twice(c + 2 * k, n);
        vstd::arithmetic::div_mod::lemma_add_mod_noop(here, 1, n);
    }
}

/// As many packets as there are control words carry every word exactly twice, in rotation
/// from the one whose turn it is, under consecutive sequence numbers; then it is that word's
/// turn again.
pub proof fn law_a_round_sends_every_word_twice(m: DeviceModel, times: Seq<int>)
    requires
        0 <= m.cursor < m.words.len(),
        times.len() == m.words.len(),
    ensures
        ({
            let n = m.words.len() as int;
            let sent = words_sent(m, times);
            &&& sent == Seq::new(2 * m.words.len(), |i: int| (m.cursor + i) % n)
            &&& forall|word: int, i: int|
                0 <= word < n && 0 <= i < 2 * n ==> (#[trigger] sent[i] == word <==> i
                    == #[trigger] ((word - m.cursor) % n) || i == (word - m.cursor) % n + n)
            &&& forall|k: int|
                0 <= k < n ==> (#[trigger] after_packets(m, times.take(k))).next_packet()
                    == crate::metis::cc_packet(
                    (m.seq + k) % 0x1_0000_0000,
                    crate::metis::cc_frame(m.words[sent[2 * k]]),
                    crate::metis::cc_frame(m.words[sent[2 * k + 1]]),
                )
            &&& after_packets(m, times).cursor == m.cursor
        }),
{
    let n = m.words.len() as int;
    let c = m.cursor;
    let sent = words_sent(m, times);
    lemma_words_sent(m, times);
    assert(sent =~= Seq::new(2 * m.words.len(), |i: int| (c + i) % n));
    assert forall|word: int, i: int| 0 <= word < n && 0 <= i < 2 * n implies (#[trigger] sent[i]
        == word <==> i == #[trigger] ((word - c) % n) || i == (word - c) % n + n) by {
        lemma_distance_round(c, word, n);
        let away = (word - c) % n;
        let j = if i < n {
            i
        } else {
            i - n
        };
        if i >= n {
            vstd::arithmetic::div_mod::lemma_mod_add_multiples_vanish(c + j, n);
        }
        assert((c + i) % n == (c + j) % n);
        // Within one round no two places hold the same word.
        if c + j < n {
            vstd::arithmetic::div_mod::lemma_small_mod((c + j) as nat, n as nat);
        } else {
            vstd::arithmetic::div_mod::lemma_mod_add_multiples_vanish(c + j - n, n);
            vstd::arithmetic::div_mod::lemma_small_mod((c + j - n) as nat, n as nat);
        }
        if word >= c {
            vstd::arithmetic::div_mod::lemma_small_mod((word - c) as nat, n as nat);
        } else {
            vstd::arithmetic::div_mod::lemma_mod_add_multiples_vanish(word - c, n);
            vstd::arithmetic::div_mod::lemma_small_mod((n + word - c) as nat, n as nat);
        }
    }
    assert forall|k: int| 0 <= k < n implies (#[trigger] after_packets(m, times.take(k))).next_packet()
        == crate::metis::cc_packet(
        (m.seq + k) % 0x1_0000_0000,
        crate::metis::cc_frame(m.words[sent[2 * k]]),
        crate::metis::cc_frame(m.words[sent[2 * k + 1]]),
    ) by {
        lemma_cursor_after(m, times.take(k));
        let here = (c + 2 * k) % n;
        vstd::arithmetic::div_mod::lemma_mod_bound(c + 2 * k, n);
        vstd::arithmetic::div_mod::lemma_add_mod_noop(c + 2 * k, 1, n);
        vstd::arithmetic::div_mod::lemma_mod_twice(c + 2 * k, n);
        vstd::arithmetic::div_mod::lemma_add_mod_noop(here, 1, n);
        assert(sent[2 * k + 1] == (c + (2 * k + 1)) % n);
    }
    lemma_cursor_after(m, times);
    vstd::arithmetic::div_mod::lemma_mod_add_multiples_vanish(c, n);
    vstd::arithmetic::div_mod::lemma_mod_add_multiples_vanish(c + n, n);
    vstd::arithmetic::div_mod::lemma_small_mod(c as nat, n as nat);
}

/// Going `(word - c) % n` places on from `c` around a circle of `n` leads to `word`.
proof fn lemma_distance_round(c: int, word: int, n: int)
    requires
        0 <= c < n,
        0 <= word < n,
    ensures
        0 <= (word - c) % n < n,
        (c + (word - c) % n) % n == word,
{
    vstd::arithmetic::div_mod::lemma_mod_bound(word - c, n);
    vstd::arithmetic::div_mod::lemma_add_mod_noop(c, word - c, n);
    vstd::arithmetic::div_mod::lemma_mod_twice(word - c, n);
    vstd::arithmetic::div_mod::lemma_add_mod_noop(c, (word - c) % n, n);
    vstd::arithmetic::div_mod::lemma_small_mod(word as nat, n as nat);
}

proof fn lemma_cursor_after(m: DeviceModel, times: Seq<int>)
    requires
        0 <= m.cursor < m.words.len(),
    ensures
        after_packets(m, times).words == m.words,
        after_packets(m, times).cursor == (m.cursor + 2 * times.len()) % (m.words.len() as int),
        after_packets(m, times).seq == (m.seq + times.len()) % 0x1_0000_0000,
    decreases times.len(),
{
    let n = m.words.len() as int;
    let k = times.len() as int;
    if k == 0 {
        vstd::arithmetic::div_mod::lemma_small_mod(m.cursor as nat, n as nat);
    } else {
        lemma_cursor_after(m, times.drop_last());
        vstd::arithmetic::div_mod::lemma_add_mod_noop(m.cursor + 2 * (k - 1), 2, n);
        let before = (m.cursor + 2 * (k - 1)) % n;
        vstd::arithmetic::div_mod::lemma_add_mod_noop(before, 2, n);
        vstd::arithmetic::div_mod::lemma_mod_twice(m.cursor + 2 * (k - 1), n);
    }
}

proof fn lemma_words_sent(m: DeviceModel, times: Seq<int>)
    requires
        0 <= m.cursor < m.words.len(),
    ensures
        words_sent(m, times).len() == 2 * times.len(),
        forall|i: int|
            0 <= i < 2 * times.len() ==> #[trigger] words_sent(m, times)[i] == (m.cursor + i) % (
            m.words.len() as int),
    decreases times.len(),
{
    let n = m.words.len() as int;
    let k = times.len() as int;
    if k > 0 {
        let front = times.drop_last();
        lemma_words_sent(m, front);
        lemma_cursor_after(m, front);
        let at = m.cursor + 2 * (k - 1);
        let here = at % n;
        vstd::arithmetic::div_mod::lemma_add_mod_noop(at, 1, n);
        vstd::arithmetic::div_mod::lemma_mod_twice(at, n);
        vstd::arithmetic::div_mod::lemma_add_mod_noop(here, 1, n);
        assert(words_sent(m, times) == words_sent(m, front).push(here).push((here + 1) % n));
        assert forall|i: int| 0 <= i < 2 * k implies #[trigger] words_sent(m, times)[i] == (m.cursor
            + i) % n by {
            if i < 2 * (k - 1) {
                assert(words_sent(m, front)[i] == (m.cursor + i) % n);
            }
        }
    }
}

/// A datagram that cannot be used puts no sample anywhere, is no sign of life, and does not
/// count as an arrival: all it does is to be counted.
pub proof fn law_bad_datagrams_are_only_counted(m: DeviceModel, packet: Seq<u8>, now: int)
    requires
        m.refusal(packet) is Some,
    ensures
        m.received(packet, now).queues == m.queues,
        m.received(packet, now).live == m.live,
        m.received(packet, now).gap.last == m.gap.last,
        m.received(packet, now).gap.dropped == m.gap.dropped,
        m.received(packet, now).gap.gaps == m.gap.gaps,
        m.received(packet, now).gap.malformed == m.gap.malformed + 1,
{
}

/// One try to read while nothing usable comes.
pub ghost enum BadRead {
    /// Nothing came.
    Silence,
    /// A datagram that cannot be used.
    Garbage(Seq<u8>),
}

/// The device after such tries.
pub open spec fn after_bad_reads(m: DeviceModel, reads: Seq<BadRead>, now: int) -> DeviceModel
    decreases reads.len(),
{
    if reads.len() == 0 {
        m
    } else {
        let before = after_bad_reads(m, reads.drop_last(), now);
        match reads.last() {
            BadRead::Silence => before.waited(),
            BadRead::Garbage(packet) => before.received(packet, now),
        }
    }
}

/// How many of the last tries brought nothing, without a datagram in between.
pub open spec fn silences_in_a_row(reads: Seq<BadRead>) -> int
    decreases reads.len(),
{
    if reads.len() == 0 || !(reads.last() is Silence) {
        0
    } else {
        silences_in_a_row(reads.drop_last()) + 1
    }
}

/// How many of the tries brought a datagram.
pub open spec fn garbage_count(reads: Seq<BadRead>) -> int
    decreases reads.len(),
{
    if reads.len() == 0 {
        0
    } else {
        garbage_count(reads.drop_last()) + if reads.last() is Garbage {
            1int
        } else {
            0int
        }
    }
}

/// A wait goes on through any mixture of silence and garbage until there was silence often
/// enough in a row, or garbage often enough without a usable datagram, and loses nothing of
/// what the queues hold.
pub proof fn law_a_wait_outlasts_bad_reads(m: DeviceModel, reads: Seq<BadRead>, now: int)
    requires
        forall|k: int|
            0 <= k < reads.len() ==> (#[trigger] reads[k] matches BadRead::Garbage(p)
                ==> m.refusal(p) is Some),
    ensures
        ({
            let then = after_bad_reads(m.begun(), reads, now);
            &&& then.timeouts == silences_in_a_row(reads)
            &&& then.malformed == garbage_count(reads)
            &&& then.gap.malformed == m.gap.malformed + garbage_count(reads)
            &&& then.queues == m.queues
            &&& then.live == m.live
        }),
    decreases reads.len(),
{
    if reads.len() > 0 {
        let front = reads.drop_last();
        assert forall|k: int| 0 <= k < front.len() implies (#[trigger] front[k] matches
            BadRead::Garbage(p) ==> m.refusal(p) is Some) by {
            assert(front[k] == reads[k]);
        }
        law_a_wait_outlasts_bad_reads(m, front, now);
        assert(reads.last() == reads[reads.len() - 1]);
    }
}

/// Where time does not run backwards, no more datagrams are taken for lost than nanoseconds
/// have passed, so that the counters have room.
pub proof fn law_losses_do_not_outrun_time(g: GapModel, now: int)
    requires
        g.last matches Some(last) ==> last <= now,
        0 <= g.gaps <= g.dropped,
        g.last is None ==> g.dropped == 0,
        g.last matches Some(last) ==> g.dropped <= last,
        g.interval >= 0,
        g.tolerance is Finite,
        0 <= now < u64::MAX,
    ensures
        g.malformed < u64::MAX ==> g.has_room(now),
        g.observed(now).gaps <= g.observed(now).dropped <= now,
        g.observed(now).last == Some(now),
{
    if g.late(now) {
        lemma_late_is_after(g, now);
        lemma_intervals_bounded(g.elapsed(now), g.interval);
    }
}

/// An arrival after `k` whole intervals is late where `k` is two or more, and the `k - 1`
/// datagrams that should have come before it are counted as lost.
pub proof fn law_lost_datagrams_are_counted(g: GapModel, last: int, k: int)
    requires
        g.last == Some(last),
        g.interval > 0,
        g.tolerance == three_halves(),
        k >= 2,
    ensures
        g.late(last + k * g.interval),
        g.observed(last + k * g.interval).dropped == g.dropped + k - 1,
        g.observed(last + k * g.interval).gaps == g.gaps + 1,
{
    let i = g.interval;
    lemma_three_halves();
    assert(k * i >= 2 * i) by (nonlinear_arith)
        requires
            k >= 2,
            i > 0,
    ;
    assert(2 * (k * i) + i == k * (2 * i) + i) by (nonlinear_arith);
    vstd::arithmetic::div_mod::lemma_fundamental_div_mod_converse(2 * (k * i) + i, 2 * i, k, i);
    assert(g.elapsed(last + k * i) == k * i);
}

/// With a tolerance of one and a half, an arrival is late exactly where it comes more than
/// one and a half intervals after the last; otherwise nothing is counted.
pub proof fn law_late_is_past_one_and_a_half_intervals(g: GapModel, last: int, now: int)
    requires
        g.last == Some(last),
        g.interval > 0,
        g.tolerance == three_halves(),
    ensures
        g.late(now) <==> 2 * (now - last) > 3 * g.interval,
        g.late(now) ==> g.observed(now).gaps == g.gaps + 1 && g.observed(now).dropped > g.dropped,
        !g.late(now) ==> g.observed(now) == (GapModel { last: Some(now), ..g }),
{
    lemma_three_halves();
}

proof fn lemma_three_halves()
    ensures
        three_halves().num() == 3,
        three_halves().den() == 2,
{
    vstd::arithmetic::power2::lemma2_to64();
}

/// Reading in pieces hands out what reading at once would have, and leaves the same.
pub proof fn law_reads_may_be_split(m: DeviceModel, ddc: int, a: int, b: int)
    requires
        0 <= ddc < m.queues.len(),
        0 <= a,
        0 <= b,
        a + b <= m.queues[ddc].len(),
    ensures
        m.queues[ddc].take(a) + m.drained(ddc, a).queues[ddc].take(b) == m.queues[ddc].take(a + b),
        m.drained(ddc, a).drained(ddc, b) == m.drained(ddc, a + b),
{
    let q = m.queues[ddc];
    assert(q.take(a) + q.skip(a).take(b) =~= q.take(a + b));
    assert(q.skip(a).skip(b) =~= q.skip(a + b));
    assert(m.drained(ddc, a).drained(ddc, b).queues =~= m.drained(ddc, a + b).queues);
}

/// Reading one receiver leaves the others alone.
pub proof fn law_receivers_are_read_apart(m: DeviceModel, ddc: int, other: int, n: int)
    requires
        0 <= ddc < m.queues.len(),
        0 <= other < m.queues.len(),
        ddc != other,
    ensures
        m.drained(ddc, n).queues[other] == m.queues[other],
{
}

/// The control word tunes the receiver with this address to the frequency: behind the address
/// stands, the highest byte first, the whole number of Hz nearest to it.
pub open spec fn tunes(word: Seq<u8>, rx: int, freq_hz: Dyadic) -> bool {
    let hz = word[1] * 16_777_216 + word[2] * 65_536 + word[3] * 256 + word[4];
    &&& word.len() == 5
    &&& word[0] == 2 * (if rx < 7 {
        0x02 + rx
    } else {
        0x12 + (rx - 7)
    })
    &&& -(freq_hz.den() as int) <= 2 * (freq_hz.num() - hz * freq_hz.den()) < freq_hz.den()
}

/// A device that was opened tunes every one of its receivers to that receiver's own frequency:
/// there is a control word that does so, and no other one for its address.
pub proof fn law_every_receiver_is_tuned(c: HpsdrConfig, now: int, rx: int)
    requires
        config_refusal(c) is None,
        0 <= rx < c.ddc_count,
    ensures
        ({
            let words = DeviceModel::fresh(c, now).words;
            &&& words.len() == c.ddc_count + 1
            &&& exists|k: int|
                {
                    &&& 0 <= k < words.len()
                    &&& tunes(#[trigger] words[k], rx, c.center_freq_hz@[rx])
                    &&& forall|j: int|
                        0 <= j < words.len() && (#[trigger] words[j])[0] == words[k][0] ==> j == k
                }
        }),
{
    let words = DeviceModel::fresh(c, now).words;
    let freq = c.center_freq_hz@[rx];
    lemma_all_tunable(c.center_freq_hz@, 0, rx);
    crate::metis::law_tuning_words_are_readable(rx, freq);
    crate::dyadic::lemma_fraction_is_proper(freq);
    crate::dyadic::law_nearest_is_within_a_half(freq.num() as int, freq.den() as int);
    let k = rx + 1;
    assert(words[k] == crate::metis::freq_word(rx, freq));
    assert(tunes(words[k], rx, freq));
    assert forall|j: int| 0 <= j < words.len() && (#[trigger] words[j])[0] == words[k][0] implies j
        == k by {
        if j > 0 {
            lemma_all_tunable(c.center_freq_hz@, 0, j - 1);
            crate::metis::law_tuning_words_are_readable(j - 1, c.center_freq_hz@[j - 1]);
            assert(words[j] == crate::metis::freq_word(j - 1, c.center_freq_hz@[j - 1]));
            if j != k {
                crate::metis::law_frequency_addresses_are_distinct(rx, j - 1);
            }
        }
    }
}

/// The first control word of an opened device sets it up: it goes to address zero and tells
/// the code of the sample rate and the number of receivers.
pub proof fn law_the_device_is_set_up(c: HpsdrConfig, now: int)
    requires
        config_refusal(c) is None,
    ensures
        ({
            let fresh = DeviceModel::fresh(c, now);
            let word = fresh.words[0];
            &&& fresh.cursor == 0 && fresh.seq == 0
            &&& fresh.timeouts == 0 && fresh.malformed == 0
            &&& word.len() == 5
            &&& word[0] == 0 && word[2] == 0 && word[3] == 0
            &&& crate::metis::rate_code(c.sample_rate_hz) == Some(word[1])
            &&& word[4] == 8 * (c.ddc_count - 1)
            &&& fresh.queues.len() == c.ddc_count
            &&& forall|rx: int|
                0 <= rx < c.ddc_count ==> (#[trigger] fresh.queues[rx]).len() == 0
            &&& !fresh.live
            &&& fresh.last_keepalive == now
            &&& fresh.gap.interval == expected_interval(c.sample_rate_hz, c.ddc_count as nat)
            &&& 2 * fresh.gap.tolerance.num() == 3 * fresh.gap.tolerance.den()
            &&& fresh.gap.last is None
            &&& fresh.gap.dropped == 0 && fresh.gap.gaps == 0 && fresh.gap.malformed == 0
        }),
{
    lemma_three_halves();
    crate::metis::law_general_words_are_readable(c.sample_rate_hz, c.ddc_count);
    let fresh = DeviceModel::fresh(c, now);
    assert(fresh.words[0] == crate::metis::general_word(c.sample_rate_hz, c.ddc_count as int));
}

/// A configuration is accepted if and only if there is at least one receiver and no more than
/// twelve, the link carries them, the rate has a control code, and there is for each receiver
/// one frequency, a number from zero to what 32 bits hold.
pub proof fn law_what_a_configuration_needs(c: HpsdrConfig)
    ensures
        config_refusal(c) is None <==> {
            &&& crate::metis::ddc_config_refusal(c.sample_rate_hz, c.ddc_count) is None
            &&& 1 <= c.ddc_count <= 12
            &&& c.center_freq_hz@.len() == c.ddc_count
            &&& crate::metis::rate_code(c.sample_rate_hz) is Some
            &&& forall|rx: int|
                0 <= rx < c.ddc_count ==> {
                    let f = #[trigger] c.center_freq_hz@[rx];
                    f is Finite && !f.below_zero() && f.num() <= 0xFFFF_FFFF * f.den()
                }
        },
        crate::metis::ddc_config_refusal(c.sample_rate_hz, c.ddc_count) is Some ==> config_refusal(
            c,
        ) == crate::metis::ddc_config_refusal(c.sample_rate_hz, c.ddc_count),
        config_refusal(c) matches Some(HpsdrError::FrequencyCount { have, need }) ==> have
            == c.center_freq_hz@.len() && need == c.ddc_count && have != need,
        config_refusal(c) matches Some(HpsdrError::TooManyReceivers { ddc_count }) ==> ddc_count
            == c.ddc_count && ddc_count > 12,
        config_refusal(c) matches Some(HpsdrError::UnsupportedRate) ==> crate::metis::rate_code(
            c.sample_rate_hz,
        ) is None,
        config_refusal(c) matches Some(HpsdrError::FrequencyOutOfRange { receiver }) ==> {
            &&& receiver < c.ddc_count
            &&& !crate::metis::tunable(c.center_freq_hz@[receiver as int])
            &&& forall|rx: int|
                0 <= rx < receiver ==> crate::metis::tunable(#[trigger] c.center_freq_hz@[rx])
        },
{
    let freqs = c.center_freq_hz@;
    assert(c.center_freq_hz.len() == freqs.len());
    if c.center_freq_hz@.len() == c.ddc_count {
        if first_untunable(freqs, 0) is None {
            assert forall|rx: int| 0 <= rx < c.ddc_count implies crate::metis::tunable(
                #[trigger] freqs[rx],
            ) by {
                lemma_all_tunable(freqs, 0, rx);
            }
        } else {
            lemma_first_untunable(freqs, 0);
        }
    }
}

proof fn lemma_first_untunable(freqs: Seq<Dyadic>, from: int)
    requires
        0 <= from,
        first_untunable(freqs, from) is Some,
    ensures
        ({
            let at = first_untunable(freqs, from)->0;
            &&& from <= at < freqs.len()
            &&& !crate::metis::tunable(freqs[at])
            &&& forall|k: int| from <= k < at ==> crate::metis::tunable(#[trigger] freqs[k])
        }),
    decreases freqs.len() - from,
{
    if from < freqs.len() && crate::metis::tunable(freqs[from]) {
        lemma_first_untunable(freqs, from + 1);
    }
}

/// What a usable datagram carries for a receiver is put behind what waits there, every sample
/// of it in order, and the datagram counts as a sign of life and as an arrival.
pub proof fn law_datagrams_are_queued_in_order(
    m: DeviceModel,
    packet: Seq<u8>,
    now: int,
    streams: Seq<Seq<RawIq>>,
    rx: int,
)
    requires
        m.queues.len() <= usize::MAX,
        m.refusal(packet) is None,
        crate::metis::carries(packet, m.queues.len(), streams),
        0 <= rx < m.queues.len(),
    ensures
        ({
            let then = m.received(packet, now);
            let (before, after) = (m.queues[rx], then.queues[rx]);
            &&& then.queues.len() == m.queues.len()
            &&& after.len() == before.len() + streams[rx].len()
            &&& forall|i: int| 0 <= i < before.len() ==> #[trigger] after[i] == before[i]
            &&& forall|i: int|
                before.len() <= i < after.len() ==> #[trigger] after[i] == streams[rx][i
                    - before.len()]
            &&& then.live
            &&& then.gap.last == Some(now)
            &&& then.gap.malformed == m.gap.malformed
            &&& then.timeouts == 0 && then.malformed == 0
        }),
{
    crate::metis::law_every_sample_comes_back(packet, m.queues.len(), streams, rx);
}

/// Once a control packet was sent none is due for a second, and then one is.
pub proof fn law_packets_go_out_every_second(m: DeviceModel, sent: int, now: int)
    requires
        m.words.len() > 0,
    ensures
        m.kept_alive(sent).keepalive_due(now) <==> now >= sent + 1_000_000_000,
        m.kept_alive(sent).queues == m.queues,
        m.kept_alive(sent).gap == m.gap,
        m.kept_alive(sent).words == m.words,
{
}

/// The time from one datagram to the next is what its samples take at the sample rate, to the
/// nearest nanosecond; where no rate or no sample tells, it is a second.
pub proof fn law_the_interval_is_what_the_samples_take(sample_rate_hz: Dyadic, receivers: nat)
    requires
        receivers > 0,
    ensures
        ({
            let interval = expected_interval(sample_rate_hz, receivers);
            let samples = 2 * (504nat / (6 * receivers + 2));
            &&& samples > 0 && sample_rate_hz.above_zero() ==> {
                let (num, den) = (sample_rate_hz.num() as int, sample_rate_hz.den() as int);
                -num <= 2 * ((samples * 1_000_000_000) * den - interval * num) < num
            }
            &&& samples == 0 ==> interval == 1_000_000_000
            &&& sample_rate_hz.below_zero() || sample_rate_hz is NotANumber ==> interval
                == 1_000_000_000
        }),
{
    crate::dyadic::lemma_fraction_is_proper(sample_rate_hz);
    let samples = 2 * crate::metis::instants_per_frame(receivers) as int;
    assert(crate::metis::stride(receivers) == 6 * receivers + 2);
    if sample_rate_hz.above_zero() {
        crate::dyadic::law_nearest_is_within_a_half(
            (samples * 1_000_000_000) * sample_rate_hz.den(),
            sample_rate_hz.num() as int,
        );
    }
}

/// A late arrival is taken for as many lost datagrams as intervals have passed before it, to
/// the nearest, and for one at least.
pub proof fn law_losses_are_what_the_time_tells(g: GapModel, now: int)
    requires
        g.interval > 0,
        g.late(now),
    ensures
        ({
            let lost = g.observed(now).dropped - g.dropped;
            &&& lost >= 1
            &&& lost == 1 ==> 2 * g.elapsed(now) < 5 * g.interval
            &&& lost > 1 ==> -g.interval <= 2 * (g.elapsed(now) - (lost + 1) * g.interval)
                < g.interval
            &&& g.observed(now).gaps == g.gaps + 1
            &&& g.observed(now).malformed == g.malformed
        }),
{
    crate::dyadic::law_nearest_is_within_a_half(g.elapsed(now), g.interval);
    let intervals = crate::dyadic::nearest(g.elapsed(now), g.interval);
    let i = g.interval;
    if intervals <= 2 {
        assert(intervals * i <= 2 * i) by (nonlinear_arith)
            requires
                intervals <= 2,
                i > 0,
        ;
    }
}

/// The first arrival is never late, and nothing is lost before it.
pub proof fn law_the_first_arrival_is_in_time(g: GapModel, now: int)
    requires
        g.last is None,
    ensures
        !g.late(now),
        g.observed(now) == (GapModel { last: Some(now), ..g }),
{
}

/// A wait gives up after ten seconds without a datagram, or after ten thousand datagrams that
/// cannot be used; and a datagram that is too long for its length to be right is never cut to
/// one that is.
pub proof fn law_how_long_a_wait_lasts()
    ensures
        READ_TIMEOUT_NS * MAX_CONSECUTIVE_TIMEOUTS == 10_000_000_000,
        MAX_CONSECUTIVE_MALFORMED == 10_000,
        RECV_BUF_LEN > 65_535,
{
}

} // verus!
