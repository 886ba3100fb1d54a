//! One tracked signal: where it sits among the channels, which channel feeds it, and what
//! its decoder is given.

use crate::level::Level;
use crate::lifecycle::{
    DetectorConfig, Lifecycle, LifecycleEvent, LifecycleModel, LifecycleState,
};
use vstd::arithmetic::div_mod::*;
use vstd::prelude::*;

verus! {

/// Positions on the channel axis are held in billionths of a channel.
pub const CHANNEL: i64 = 1_000_000_000;

/// Most channels a band may have: positions must fit the machine's integers.
pub const MAX_CHANNELS: usize = 0x7FFF_FFFF;

/// Real hops that the amplitude refiner needs after a reset before its output counts.
pub const REFINER_TAPS: u64 = 11;

/// What the channelizer, the noise floor and the detector say about one hop, channel by
/// channel.
pub struct HopObservation {
    /// Power of each channel.
    pub power: Vec<Level>,
    /// The channel is above the rise threshold.
    pub rise: Vec<bool>,
    /// The channel is below the drop threshold.
    pub drop: Vec<bool>,
    /// Signal-to-noise ratio of each channel.
    pub snr: Vec<Level>,
    /// Where the peak over a channel and its two neighbours lies, relative to the channel,
    /// in billionths of a channel; `None` where there is no peak to speak of.
    pub peak: Vec<Option<i32>>,
}

impl HopObservation {
    /// Every channel is covered.
    pub open spec fn covers(self, n: nat) -> bool {
        &&& self.power@.len() == n
        &&& self.rise@.len() == n
        &&& self.drop@.len() == n
        &&& self.snr@.len() == n
        &&& self.peak@.len() == n
    }
}

/// `x / y` rounded to the nearest whole number, halves away from zero.
pub open spec fn round_quotient(x: int, y: int) -> int {
    if x >= 0 {
        (2 * x + y) / (2 * y)
    } else {
        -((-2 * x + y) / (2 * y))
    }
}

/// The channel nearest to a position. It may lie outside the band by one.
pub open spec fn nearest_channel(center: int) -> int {
    round_quotient(center, CHANNEL as int)
}

/// Channels are a circle: the first and the last are neighbours.
pub open spec fn wrapped(channel: int, n: nat) -> int {
    channel % (n as int)
}

/// A track at `center` owns its channel and the two beside it.
pub open spec fn owns(center: int, n: nat, channel: int) -> bool {
    let c = nearest_channel(center);
    channel == wrapped(c - 1, n) || channel == wrapped(c, n) || channel == wrapped(c + 1, n)
}

/// The strongest owned channel; among equals the one that is highest around the circle.
pub open spec fn strongest_owned(center: int, n: nat, power: Seq<Level>) -> int {
    let c = nearest_channel(center);
    let (lo, mid, hi) = (wrapped(c - 1, n), wrapped(c, n), wrapped(c + 1, n));
    if power[hi].code >= power[mid].code && power[hi].code >= power[lo].code {
        hi
    } else if power[mid].code >= power[lo].code {
        mid
    } else {
        lo
    }
}

/// The position follows the observed peak by a hundredth of the distance per hop.
pub open spec fn followed(center: int, channel: int, peak: Option<i32>) -> int {
    match peak {
        Some(delta) => center + round_quotient(channel * CHANNEL + delta - center, 100),
        None => center,
    }
}

/// Signed distance of a channel from the receiver's center, in channels.
pub open spec fn channel_offset(channel: int, n: nat) -> int {
    (channel + n as int / 2) % (n as int) - n as int / 2
}

/// Positions that a track in a band of `n` channels can reach.
pub open spec fn in_band(center: int, n: nat) -> bool {
    i32::MIN <= center <= (n - 1) * CHANNEL + i32::MAX
}

/// What a decoder is given for one hop.
#[derive(Debug, Clone, Copy, PartialEq, Eq, Structural)]
pub struct DecoderFeed {
    pub track_id: u32,
    /// The decoder is new: lease one.
    pub leased: bool,
    /// The strongest owned channel, whose full power the noise estimate needs.
    pub channel: usize,
    /// The channel nearest to the track's position, which amplitude and noise reference
    /// are taken from when refinement is on.
    pub centroid: usize,
    /// Distance of the track from `centroid`, in billionths of a channel.
    pub delta: i64,
    /// Clear the refiner before this hop.
    pub reset: bool,
    /// The refiner has a full window: use its amplitude rather than the raw one.
    pub refined: bool,
    pub sample_ts: u64,
    pub snr: Level,
    /// Place of the track relative to the receiver's center, in billionths of a channel.
    pub offset: i64,
}

/// The mathematical state of a [`Track`].
pub ghost struct TrackModel {
    pub id: u32,
    pub life: LifecycleModel,
    pub center: int,
    pub snr: Level,
    pub birth: int,
    pub decoding: bool,
    pub has_emitted: bool,
    pub refiner_channel: Option<int>,
    pub refiner_hops: nat,
}

impl TrackModel {
    /// A candidate born on `channel`.
    pub open spec fn born(id: u32, channel: int, cfg: DetectorConfig, snr: Level) -> Self {
        TrackModel {
            id,
            life: LifecycleModel::born(
                cfg.confirm_hops as nat,
                cfg.hang_hops as nat,
                cfg.gc_hops as nat,
            ),
            center: channel * CHANNEL,
            snr,
            birth: channel,
            decoding: false,
            has_emitted: false,
            refiner_channel: None,
            refiner_hops: 0,
        }
    }

    /// A track in a band of `n` channels.
    pub open spec fn placed(self, n: nat) -> bool {
        &&& 0 <= self.birth < n
        &&& in_band(self.center, n)
        &&& self.life.live()
    }

    /// A track in a band of `n` channels, `hops` hops into the run.
    pub open spec fn wf(self, n: nat, hops: nat) -> bool {
        &&& self.placed(n)
        &&& self.refiner_hops <= hops
    }

    pub open spec fn owns(self, n: nat, channel: int) -> bool {
        owns(self.center, n, channel)
    }

    /// The channel that feeds the track on this hop.
    pub open spec fn channel(self, hop: HopObservation, n: nat) -> int {
        strongest_owned(self.center, n, hop.power@)
    }

    /// What the hop makes known about the track.
    pub open spec fn event(self, hop: HopObservation, n: nat) -> LifecycleEvent {
        let k = self.channel(hop, n);
        self.life.event(hop.rise@[k], hop.drop@[k], false)
    }

    /// The track after the hop, before its decoder is fed.
    pub open spec fn moved(self, hop: HopObservation, n: nat) -> Self {
        let k = self.channel(hop, n);
        TrackModel {
            life: self.life.next(hop.rise@[k], hop.drop@[k], false),
            center: followed(self.center, k, hop.peak@[k]),
            snr: hop.snr@[k],
            decoding: self.decoding || self.event(hop, n) == LifecycleEvent::Promoted,
            ..self
        }
    }

    /// The channel that the refiner listens on: the nearest one, or the first where the
    /// position lies below the band.
    pub open spec fn centroid(self) -> int {
        if nearest_channel(self.center) >= 0 {
            nearest_channel(self.center)
        } else {
            0
        }
    }

    /// The refiner must start over: the centroid has moved to another channel.
    pub open spec fn refiner_restarts(self) -> bool {
        self.refiner_channel != Some(self.centroid())
    }

    /// The track after its decoder was fed.
    pub open spec fn fed(self, refine: bool) -> Self {
        if !refine {
            self
        } else {
            TrackModel {
                refiner_channel: Some(self.centroid()),
                refiner_hops: if self.refiner_restarts() {
                    1
                } else {
                    self.refiner_hops + 1
                },
                ..self
            }
        }
    }

    /// Place relative to the receiver's center.
    pub open spec fn offset(self, n: nat) -> int {
        channel_offset(self.birth, n) * CHANNEL + self.center - self.birth * CHANNEL
    }

    /// What the decoder is given for a hop with strongest channel `channel`.
    pub open spec fn feed(
        self,
        channel: int,
        n: nat,
        sample_ts: u64,
        refine: bool,
        leased: bool,
    ) -> DecoderFeed {
        DecoderFeed {
            track_id: self.id,
            leased,
            channel: channel as usize,
            centroid: self.centroid() as usize,
            delta: (self.center - self.centroid() * CHANNEL) as i64,
            reset: refine && self.refiner_restarts(),
            refined: refine && self.fed(refine).refiner_hops >= REFINER_TAPS,
            sample_ts,
            snr: self.snr,
            offset: self.offset(n) as i64,
        }
    }
}

/// One tracked signal.
#[derive(Debug, Clone, Copy)]
pub struct Track {
    id: u32,
    lifecycle: Lifecycle,
    center: i64,
    current_snr: Level,
    birth_channel: usize,
    decoding: bool,
    has_emitted: bool,
    refiner_channel: Option<usize>,
    refiner_hops_since_reset: u64,
}

impl View for Track {
    type V = TrackModel;

    closed spec fn view(&self) -> TrackModel {
        TrackModel {
            id: self.id,
            life: self.lifecycle@,
            center: self.center as int,
            snr: self.current_snr,
            birth: self.birth_channel as int,
            decoding: self.decoding,
            has_emitted: self.has_emitted,
            refiner_channel: match self.refiner_channel {
                Some(c) => Some(c as int),
                None => None,
            },
            refiner_hops: self.refiner_hops_since_reset as nat,
        }
    }
}

/// `x / y` rounded to the nearest whole number, halves away from zero.
fn round_div(x: i64, y: i64) -> (q: i64)
    requires
        0 < y <= CHANNEL,
        -4_600_000_000_000_000_000 <= x <= 4_600_000_000_000_000_000,
    ensures
        q == round_quotient(x as int, y as int),
        x >= 0 ==> 0 <= q <= x,
        x < 0 ==> x <= q <= 0,
{
    if x >= 0 {
        proof {
            lemma_round_quotient(x as int, y as int);
        }
        let (a, b) = ((2 * x + y) as u64, (2 * y) as u64);
        (a / b) as i64
    } else {
        proof {
            lemma_round_quotient(-(x as int), y as int);
        }
        let (a, b) = ((2 * (-x) + y) as u64, (2 * y) as u64);
        -((a / b) as i64)
    }
}

proof fn lemma_round_quotient(x: int, y: int)
    requires
        x >= 0,
        y > 0,
    ensures
        0 <= (2 * x + y) / (2 * y) <= x || x == 0 && (2 * x + y) / (2 * y) == 0,
{
    let q = (2 * x + y) / (2 * y);
    lemma_fundamental_div_mod(2 * x + y, 2 * y);
    lemma_mod_bound(2 * x + y, 2 * y);
    lemma_div_pos_is_pos(2 * x + y, 2 * y);
    assert(q <= x) by (nonlinear_arith)
        requires
            2 * x + y >= (2 * y) * q,
            y > 0,
            x >= 0,
    ;
}

/// Following a peak keeps a track in its band.
pub proof fn lemma_following_stays_in_band(center: int, channel: int, peak: Option<i32>, n: nat)
    requires
        0 <= channel < n,
        in_band(center, n),
    ensures
        in_band(followed(center, channel, peak), n),
{
    if let Some(delta) = peak {
        let d = channel * CHANNEL + delta - center;
        assert(channel * CHANNEL <= (n - 1) * CHANNEL) by (nonlinear_arith)
            requires
                channel <= n - 1,
                CHANNEL > 0,
        ;
        assert(0 <= channel * CHANNEL) by (nonlinear_arith)
            requires
                0 <= channel,
                CHANNEL > 0,
        ;
        if d >= 0 {
            lemma_round_quotient(d, 100);
        } else {
            lemma_round_quotient(-d, 100);
        }
    }
}

proof fn lemma_nearest_channel_is_close(center: int, n: nat)
    requires
        in_band(center, n),
    ensures
        -3 <= nearest_channel(center) <= n + 2,
{
    let y = CHANNEL as int;
    let x = if center >= 0 {
        center
    } else {
        -center
    };
    let q = (2 * x + y) / (2 * y);
    lemma_fundamental_div_mod(2 * x + y, 2 * y);
    lemma_mod_bound(2 * x + y, 2 * y);
    assert((2 * y) * q == 2_000_000_000 * q);
    assert((n - 1) * y == 1_000_000_000 * (n - 1));
}

/// `channel` brought into `0..n`.
fn wrap_channel(channel: i64, n: usize) -> (k: usize)
    requires
        0 < n <= MAX_CHANNELS,
        channel > i64::MIN,
    ensures
        k == wrapped(channel as int, n as nat),
        0 <= k < n,
{
    if channel >= 0 {
        (channel as u64 % n as u64) as usize
    } else {
        let below: u64 = (-channel) as u64;
        let r: u64 = below % n as u64;
        let ghost q = below as int / n as int;
        if r == 0 {
            proof {
                lemma_fundamental_div_mod(below as int, n as int);
                assert(channel as int == n * (-q) + 0) by (nonlinear_arith)
                    requires
                        -channel == n * q + 0,
                ;
                lemma_fundamental_div_mod_converse(channel as int, n as int, -q, 0);
            }
            0
        } else {
            proof {
                lemma_fundamental_div_mod(below as int, n as int);
                lemma_mod_bound(below as int, n as int);
                assert(channel as int == n * (-q - 1) + (n - r)) by (nonlinear_arith)
                    requires
                        -channel == n * q + r,
                ;
                lemma_fundamental_div_mod_converse(channel as int, n as int, -q - 1, n - r);
            }
            n - r as usize
        }
    }
}

/// Signed distance of a channel from the receiver's center, in channels.
pub fn wrapped_channel_offset(k: usize, n_channels: usize) -> (offset: i64)
    requires
        k < n_channels <= MAX_CHANNELS,
    ensures
        offset == channel_offset(k as int, n_channels as nat),
        -(n_channels as int) <= offset <= n_channels,
{
    let half: i64 = n_channels as i64 / 2;
    let around: usize = wrap_channel(k as i64 + half, n_channels);
    around as i64 - half
}

impl Track {
    /// A brand-new candidate on `birth_channel`.
    pub fn new(id: u32, birth_channel: usize, cfg: &DetectorConfig, snr: Level) -> (track: Self)
        requires
            birth_channel <= MAX_CHANNELS,
        ensures
            track@ == TrackModel::born(id, birth_channel as int, *cfg, snr),
            forall|n: nat, hops: nat| birth_channel < n ==> #[trigger] track@.wf(n, hops),
    {
        Track {
            id,
            lifecycle: Lifecycle::new(cfg),
            center: birth_channel as i64 * CHANNEL,
            current_snr: snr,
            birth_channel,
            decoding: false,
            has_emitted: false,
            refiner_channel: None,
            refiner_hops_since_reset: 0,
        }
    }

    pub fn id(&self) -> (id: u32)
        ensures
            id == self@.id,
    {
        self.id
    }

    pub fn state(&self) -> (state: LifecycleState)
        ensures
            state == self@.life.state,
    {
        self.lifecycle.state()
    }

    /// The track's position, in billionths of a channel.
    pub fn center(&self) -> (center: i64)
        ensures
            center == self@.center,
    {
        self.center
    }

    pub fn current_snr(&self) -> (snr: Level)
        ensures
            snr == self@.snr,
    {
        self.current_snr
    }

    pub fn birth_channel(&self) -> (channel: usize)
        ensures
            channel == self@.birth,
    {
        self.birth_channel
    }

    /// The track has a decoder.
    pub fn decoding(&self) -> (yes: bool)
        ensures
            yes == self@.decoding,
    {
        self.decoding
    }

    /// The track's decoder has reported something.
    pub fn has_emitted(&self) -> (yes: bool)
        ensures
            yes == self@.has_emitted,
    {
        self.has_emitted
    }

    /// The track's decoder has reported something; a character starts the
    /// garbage-collection window over.
    pub fn note_emitted(&mut self, character: bool)
        ensures
            final(self)@ == (TrackModel {
                has_emitted: true,
                life: if character {
                    old(self)@.life.spoken()
                } else {
                    old(self)@.life
                },
                ..old(self)@
            }),
            forall|n: nat, hops: nat|
                old(self)@.wf(n, hops) ==> #[trigger] final(self)@.wf(n, hops),
    {
        self.has_emitted = true;
        if character {
            self.lifecycle.note_char_decoded();
        }
    }

    /// The channels that the track owns, in order around the circle.
    pub fn owned(&self, n_channels: usize) -> (owned: (usize, usize, usize))
        requires
            n_channels <= MAX_CHANNELS,
            in_band(self@.center, n_channels as nat),
            n_channels > 0,
        ensures
            ({
                let c = nearest_channel(self@.center);
                &&& owned.0 == wrapped(c - 1, n_channels as nat)
                &&& owned.1 == wrapped(c, n_channels as nat)
                &&& owned.2 == wrapped(c + 1, n_channels as nat)
            }),
            owned.0 < n_channels && owned.1 < n_channels && owned.2 < n_channels,
            forall|k: int|
                #[trigger] self@.owns(n_channels as nat, k) <==> k == owned.0 || k == owned.1 || k
                    == owned.2,
    {
        let c: i64 = round_div(self.center, CHANNEL);
        (
            wrap_channel(c - 1, n_channels),
            wrap_channel(c, n_channels),
            wrap_channel(c + 1, n_channels),
        )
    }

    /// The strongest owned channel.
    pub fn select_channel(&self, power: &Vec<Level>, n_channels: usize) -> (k: usize)
        requires
            0 < n_channels <= MAX_CHANNELS,
            power.len() == n_channels,
            in_band(self@.center, n_channels as nat),
        ensures
            k == strongest_owned(self@.center, n_channels as nat, power@),
            k < n_channels,
            self@.owns(n_channels as nat, k as int),
    {
        let (lo, mid, hi) = self.owned(n_channels);
        if power[hi].code >= power[mid].code && power[hi].code >= power[lo].code {
            hi
        } else if power[mid].code >= power[lo].code {
            mid
        } else {
            lo
        }
    }

    /// Let the position follow the peak observed around channel `k`.
    pub fn update_centroid(&mut self, k: usize, peak: Option<i32>, n_channels: usize)
        requires
            k < n_channels <= MAX_CHANNELS,
            in_band(old(self)@.center, n_channels as nat),
        ensures
            final(self)@ == (TrackModel {
                center: followed(old(self)@.center, k as int, peak),
                ..old(self)@
            }),
            in_band(final(self)@.center, n_channels as nat),
    {
        match peak {
            Some(delta) => {
                let raw: i64 = k as i64 * CHANNEL + delta as i64;
                let step: i64 = round_div(raw - self.center, 100);
                self.center = self.center + step;
            },
            None => {},
        }
    }

    /// The track's place relative to the receiver's center, in billionths of a channel.
    pub fn freq_offset(&self, n_channels: usize) -> (offset: i64)
        requires
            self@.birth < n_channels <= MAX_CHANNELS,
            in_band(self@.center, n_channels as nat),
        ensures
            offset == self@.offset(n_channels as nat),
    {
        let around: i64 = wrapped_channel_offset(self.birth_channel, n_channels);
        let moved: i64 = self.center - self.birth_channel as i64 * CHANNEL;
        around * CHANNEL + moved
    }

    /// Decide what the decoder is given for this hop. With refinement on, the refiner
    /// listens on the channel nearest to the track's position; it starts over when that
    /// channel changes, and its amplitude counts once its whole window is real.
    pub fn decoder_input(
        &mut self,
        k: usize,
        sample_ts: u64,
        refine: bool,
        leased: bool,
        n_channels: usize,
    ) -> (feed: DecoderFeed)
        requires
            old(self)@.birth < n_channels <= MAX_CHANNELS,
            in_band(old(self)@.center, n_channels as nat),
            old(self)@.refiner_hops < u64::MAX,
        ensures
            final(self)@ == old(self)@.fed(refine),
            feed == old(self)@.feed(k as int, n_channels as nat, sample_ts, refine, leased),
            feed.offset == old(self)@.offset(n_channels as nat),
    {
        proof {
            lemma_nearest_channel_is_close(self@.center, n_channels as nat);
        }
        let c: i64 = round_div(self.center, CHANNEL);
        let centroid: usize = if c >= 0 { c as usize } else { 0 };
        let delta: i64 = self.center - centroid as i64 * CHANNEL;
        let mut reset = false;
        let mut refined = false;
        if refine {
            reset = match self.refiner_channel {
                Some(channel) => channel != centroid,
                None => true,
            };
            if reset {
                self.refiner_channel = Some(centroid);
                self.refiner_hops_since_reset = 0;
            }
            self.refiner_hops_since_reset += 1;
            refined = self.refiner_hops_since_reset >= REFINER_TAPS;
        }
        DecoderFeed {
            track_id: self.id,
            leased,
            channel: k,
            centroid,
            delta,
            reset,
            refined,
            sample_ts,
            snr: self.current_snr,
            offset: self.freq_offset(n_channels),
        }
    }

    /// Take one hop: follow the strongest owned channel and advance the lifecycle.
    pub fn drive(&mut self, hop: &HopObservation, n_channels: usize) -> (out: (
        usize,
        LifecycleEvent,
    ))
        requires
            n_channels <= MAX_CHANNELS,
            hop.covers(n_channels as nat),
            old(self)@.placed(n_channels as nat),
        ensures
            out.0 == old(self)@.channel(*hop, n_channels as nat),
            out.1 == old(self)@.event(*hop, n_channels as nat),
            final(self)@ == old(self)@.moved(*hop, n_channels as nat),
            in_band(final(self)@.center, n_channels as nat),
            !(out.1 is Closed) ==> final(self)@.life.live(),
    {
        let k: usize = self.select_channel(&hop.power, n_channels);
        self.update_centroid(k, hop.peak[k], n_channels);
        self.current_snr = hop.snr[k];
        let event = self.lifecycle.on_hop(hop.rise[k], hop.drop[k], false);
        if event == LifecycleEvent::Promoted {
            self.decoding = true;
        }
        (k, event)
    }
}

/// The second state follows the first after one hop in which the decoder was fed with
/// refinement on: whatever else the hop changed, the refiner goes on from where it stood.
pub open spec fn refining_on(before: TrackModel, after: TrackModel) -> bool {
    &&& after.refiner_channel == before.fed(true).refiner_channel
    &&& after.refiner_hops == before.fed(true).refiner_hops
}

/// Refined amplitudes count from the hop on that makes the refiner's window full, the hop of
/// its restart being the first; until then the hop's own amplitude is used. The refiner is
/// cleared on that first hop and then no more while the track drifts without changing its
/// nearest channel. Throughout, the noise estimate gets the power of the strongest owned
/// channel, and every hop its own time.
pub proof fn law_refining_takes_a_full_window(
    states: Seq<TrackModel>,
    at: int,
    channel: int,
    n: nat,
    sample_ts: u64,
    leased: bool,
)
    requires
        0 <= at < states.len(),
        states[0].refiner_restarts(),
        forall|k: int| 0 <= k < states.len() ==> (#[trigger] states[k]).centroid()
            == states[0].centroid(),
        forall|k: int|
            0 <= k < states.len() - 1 ==> refining_on(#[trigger] states[k], states[k + 1]),
        0 <= channel < n <= MAX_CHANNELS,
    ensures
        ({
            let feed = states[at].feed(channel, n, sample_ts, true, leased);
            &&& feed.reset <==> at == 0
            &&& feed.refined <==> at + 1 >= REFINER_TAPS
            &&& feed.channel == channel
            &&& feed.sample_ts == sample_ts
        }),
{
    lemma_refiner_counts(states, at);
}

proof fn lemma_refiner_counts(states: Seq<TrackModel>, at: int)
    requires
        0 <= at < states.len(),
        states[0].refiner_restarts(),
        forall|k: int| 0 <= k < states.len() ==> (#[trigger] states[k]).centroid()
            == states[0].centroid(),
        forall|k: int|
            0 <= k < states.len() - 1 ==> refining_on(#[trigger] states[k], states[k + 1]),
    ensures
        states[at].fed(true).refiner_hops == at + 1,
        states[at].refiner_restarts() <==> at == 0,
    decreases at,
{
    if at > 0 {
        lemma_refiner_counts(states, at - 1);
        assert(refining_on(states[at - 1], states[at - 1 + 1]));
        assert(states[at].centroid() == states[0].centroid());
        assert(states[at - 1].centroid() == states[0].centroid());
    }
}

/// With refinement off nothing is refined or cleared, and the noise estimate and the time are
/// the same as with it.
pub proof fn law_without_refinement_feeds_are_raw(
    t: TrackModel,
    channel: int,
    n: nat,
    sample_ts: u64,
    leased: bool,
)
    requires
        0 <= channel < n <= MAX_CHANNELS,
    ensures
        ({
            let feed = t.feed(channel, n, sample_ts, false, leased);
            &&& !feed.reset && !feed.refined
            &&& feed.channel == channel
            &&& feed.sample_ts == sample_ts
            &&& t.fed(false) == t
        }),
{
}

/// Rounding goes to a nearest whole number, and of two that are equally near to the one that
/// is further from zero.
pub proof fn law_rounding_is_to_the_nearest(x: int, y: int)
    requires
        y > 0,
    ensures
        -y <= 2 * (x - round_quotient(x, y) * y) <= y,
        x > 0 ==> 2 * (x - round_quotient(x, y) * y) < y,
        x < 0 ==> -y < 2 * (x - round_quotient(x, y) * y),
        x == 0 ==> round_quotient(x, y) == 0,
{
    let size = if x >= 0 {
        x
    } else {
        -x
    };
    let q = (2 * size + y) / (2 * y);
    lemma_fundamental_div_mod(2 * size + y, 2 * y);
    lemma_mod_bound(2 * size + y, 2 * y);
    assert((2 * y) * q == 2 * (q * y)) by (nonlinear_arith);
    assert((-q) * y == -(q * y)) by (nonlinear_arith);
    if x == 0 {
        lemma_fundamental_div_mod_converse(y, 2 * y, 0, y);
    }
}

/// Where channel `c` is the one nearest to a track, of two equally near ones the one that is
/// further from zero, the track owns that channel and the two beside it, around the circle,
/// and no other.
pub proof fn law_a_track_owns_three_channels(center: int, c: int, n: nat, channel: int)
    requires
        n > 0,
        center >= 0 ==> -CHANNEL <= 2 * (center - c * CHANNEL) < CHANNEL,
        center < 0 ==> -CHANNEL < 2 * (center - c * CHANNEL) <= CHANNEL,
    ensures
        owns(center, n, channel) <==> 0 <= channel < n && ((channel - c) % (n as int) == 0 || (
        channel - c - 1) % (n as int) == 0 || (channel - c + 1) % (n as int) == 0),
{
    law_rounding_is_to_the_nearest(center, CHANNEL as int);
    assert(nearest_channel(center) == c);
    lemma_same_around(channel, c, n);
    lemma_same_around(channel, c + 1, n);
    lemma_same_around(channel, c - 1, n);
}

/// A channel is where a place around the circle leads if and only if they differ by whole
/// turns.
proof fn lemma_same_around(channel: int, place: int, n: nat)
    requires
        n > 0,
    ensures
        channel == wrapped(place, n) <==> 0 <= channel < n && (channel - place) % (n as int) == 0,
{
    let m = n as int;
    lemma_fundamental_div_mod(place, m);
    lemma_mod_bound(place, m);
    let (q, r) = (place / m, place % m);
    if channel == r {
        assert(channel - place == m * (-q) + 0) by (nonlinear_arith)
            requires
                place == m * q + channel,
        ;
        lemma_fundamental_div_mod_converse(channel - place, m, -q, 0);
    }
    if 0 <= channel < n && (channel - place) % m == 0 {
        lemma_fundamental_div_mod(channel - place, m);
        let d = (channel - place) / m;
        assert(place == m * (-d) + channel) by (nonlinear_arith)
            requires
                channel - place == m * d + 0,
        ;
        lemma_fundamental_div_mod_converse(place, m, -d, channel);
    }
}

/// A track listens to the strongest of the channels that it owns; of equally strong ones, to
/// the one that comes last around the circle.
pub proof fn law_the_strongest_owned_channel_is_heard(center: int, n: nat, power: Seq<Level>)
    requires
        n > 0,
        power.len() == n,
    ensures
        ({
            let k = strongest_owned(center, n, power);
            let c = nearest_channel(center);
            &&& 0 <= k < n
            &&& owns(center, n, k)
            &&& forall|other: int|
                owns(center, n, other) ==> (#[trigger] power[other]).code <= power[k].code
            &&& power[(c + 1) % (n as int)].code == power[k].code ==> k == (c + 1) % (n as int)
            &&& power[(c + 1) % (n as int)].code < power[c % (n as int)].code
                && power[c % (n as int)].code == power[k].code ==> k == c % (n as int)
        }),
{
    let c = nearest_channel(center);
    lemma_mod_bound(c - 1, n as int);
    lemma_mod_bound(c, n as int);
    lemma_mod_bound(c + 1, n as int);
}

/// A track goes a hundredth of the way to the peak, to the nearest billionth of a channel: it
/// goes towards the peak, never past it, and stays where no peak is seen.
pub proof fn law_a_track_follows_its_peak(center: int, channel: int, peak: Option<i32>)
    ensures
        peak is None ==> followed(center, channel, peak) == center,
        peak matches Some(delta) ==> {
            let way = channel * CHANNEL + delta - center;
            let went = followed(center, channel, peak) - center;
            &&& -50 <= way - 100 * went <= 50
            &&& way >= 0 ==> 0 <= went <= way
            &&& way <= 0 ==> way <= went <= 0
        },
{
    if let Some(delta) = peak {
        let way = channel * CHANNEL + delta - center;
        law_rounding_is_to_the_nearest(way, 100);
        if way >= 0 {
            lemma_round_quotient(way, 100);
        } else {
            lemma_round_quotient(-way, 100);
        }
    }
}

/// The signed distance of a channel from the receiver's center leads around the circle to
/// that channel, the shorter way round.
pub proof fn law_offsets_go_the_shorter_way(channel: int, n: nat)
    requires
        n > 0,
    ensures
        (channel_offset(channel, n) - channel) % (n as int) == 0,
        -(n as int) <= 2 * channel_offset(channel, n) < n,
{
    let m = n as int;
    let half = m / 2;
    lemma_fundamental_div_mod(channel + half, m);
    lemma_mod_bound(channel + half, m);
    let q = (channel + half) / m;
    assert(channel_offset(channel, n) - channel == m * (-q) + 0) by (nonlinear_arith)
        requires
            channel_offset(channel, n) == (channel + half) - m * q - half,
    ;
    lemma_fundamental_div_mod_converse(channel_offset(channel, n) - channel, m, -q, 0);
}

/// A track is told to be where it is: its place relative to the receiver's center differs
/// from its position by whole turns round the band, and is the shorter way round for a track
/// that has not moved since its birth.
pub proof fn law_a_track_is_told_where_it_is(t: TrackModel, n: nat)
    requires
        n > 0,
    ensures
        (t.offset(n) - t.center) % (n * CHANNEL) == 0,
        ({
            let born_at = t.offset(n) - (t.center - t.birth * CHANNEL);
            -(n * CHANNEL) <= 2 * born_at < n * CHANNEL
        }),
{
    law_offsets_go_the_shorter_way(t.birth, n);
    let m = n as int;
    let d = channel_offset(t.birth, n) - t.birth;
    lemma_fundamental_div_mod(d, m);
    let q = d / m;
    let turn = n * CHANNEL;
    assert(turn > 0) by (nonlinear_arith)
        requires
            turn == n * CHANNEL,
            n > 0,
            CHANNEL > 0,
    ;
    assert(t.offset(n) - t.center == turn * q + 0) by (nonlinear_arith)
        requires
            t.offset(n) - t.center == d * CHANNEL,
            d == m * q + 0,
            turn == m * CHANNEL,
    ;
    lemma_fundamental_div_mod_converse(t.offset(n) - t.center, turn, q, 0);
}

/// A track that moves along the channels is told to have moved as far, and the same way.
pub proof fn law_drift_is_told_as_it_is(before: TrackModel, after: TrackModel, n: nat)
    requires
        before.birth == after.birth,
    ensures
        after.offset(n) - before.offset(n) == after.center - before.center,
{
}

/// What a decoder is fed names the track, its level and its place; the channel that the
/// refiner listens on and the distance from it make up the track's position, and there is no
/// nearer channel in the band.
pub proof fn law_feeds_say_where_the_track_is(
    t: TrackModel,
    channel: int,
    n: nat,
    sample_ts: u64,
    refine: bool,
    leased: bool,
)
    requires
        0 <= channel < n <= MAX_CHANNELS,
        0 <= t.birth < n,
        in_band(t.center, n),
    ensures
        ({
            let feed = t.feed(channel, n, sample_ts, refine, leased);
            &&& feed.track_id == t.id
            &&& feed.snr == t.snr
            &&& feed.leased == leased
            &&& feed.offset == t.offset(n)
            &&& (feed.offset - t.center) % (n * CHANNEL) == 0
            &&& feed.centroid * CHANNEL + feed.delta == t.center
            &&& 2 * feed.delta <= CHANNEL
            &&& feed.centroid > 0 || t.center >= 0 ==> -CHANNEL <= 2 * feed.delta
        }),
{
    lemma_offset_fits(t, n);
    law_a_track_is_told_where_it_is(t, n);
    law_rounding_is_to_the_nearest(t.center, CHANNEL as int);
    lemma_nearest_channel_is_close(t.center, n);
}

/// The place of a track fits the machine.
pub proof fn lemma_offset_fits(t: TrackModel, n: nat)
    requires
        0 <= t.birth < n <= MAX_CHANNELS,
        in_band(t.center, n),
    ensures
        i64::MIN <= t.offset(n) <= i64::MAX,
{
    law_offsets_go_the_shorter_way(t.birth, n);
}

} // verus!
