//! A health check: is this source hearing anything real?

use crate::dyadic::Dyadic;
use crate::events::DecoderEvent;
use crate::level::Level;
use vstd::prelude::*;

verus! {

/// A run whose median signal-to-noise ratio is at or below the level with this code, zero
/// dB, is hearing noise.
pub const NOISE_FLOOR_SNR_DB: i32 = 0;

/// What a run says about its source, from the worst to the best.
#[derive(Debug, Clone, Copy, PartialEq, Eq, Structural)]
pub enum Verdict {
    /// No track data at all: the detector never opened a track.
    NoSignal,
    /// Tracks opened, but at the noise floor, and nothing was confirmed.
    NoisyNoDecode,
    /// Tracks opened above the noise floor, but nothing was confirmed.
    WeakNoDecode,
    /// At least one confirmed spot.
    Decoding,
}

impl Verdict {
    pub open spec fn spec_summary(self) -> Seq<char> {
        match self {
            Verdict::NoSignal =>
                "NO_SIGNAL -- no track ever opened. Check antenna, gain, and that the tuned passband overlaps where you expect signal."@,
            Verdict::NoisyNoDecode =>
                "NOISY_NO_DECODE -- tracks opened but every one reads at or below the noise floor and nothing decoded. Looks like noise, not real CW traffic, right now."@,
            Verdict::WeakNoDecode =>
                "WEAK_NO_DECODE -- real signal-level SNR seen, but nothing validated into a spot. Signal is present; something else (mode, WPM, grammar gate) is rejecting it."@,
            Verdict::Decoding =>
                "DECODING -- at least one confirmed spot. End to end, working."@,
        }
    }

    /// The verdict in words.
    pub fn summary(&self) -> (text: &'static str)
        ensures
            text@ == self.spec_summary(),
    {
        match *self {
            Verdict::NoSignal =>
                "NO_SIGNAL -- no track ever opened. Check antenna, gain, and that the tuned passband overlaps where you expect signal.",
            Verdict::NoisyNoDecode =>
                "NOISY_NO_DECODE -- tracks opened but every one reads at or below the noise floor and nothing decoded. Looks like noise, not real CW traffic, right now.",
            Verdict::WeakNoDecode =>
                "WEAK_NO_DECODE -- real signal-level SNR seen, but nothing validated into a spot. Signal is present; something else (mode, WPM, grammar gate) is rejecting it.",
            Verdict::Decoding =>
                "DECODING -- at least one confirmed spot. End to end, working.",
        }
    }
}

/// The tabulated result of one run.
#[derive(Debug, Clone, Copy)]
pub struct DoctorReport {
    /// The rate that the source really runs at.
    pub sample_rate_hz: Dyadic,
    /// The center that the source is really tuned to.
    pub center_freq_hz: Dyadic,
    /// How long the source was observed, in nanoseconds.
    pub duration_ns: u64,
    /// How often a track gave its data.
    pub track_meta_count: usize,
    /// How many tracks closed.
    pub tracks_closed: usize,
    pub snr_db_min: Option<Level>,
    pub snr_db_max: Option<Level>,
    /// The median of every signal-to-noise ratio seen.
    pub snr_db_median: Option<Level>,
    /// How many signs were decoded.
    pub chars_decoded: usize,
    /// How many different characters they put into the text.
    pub distinct_chars: usize,
    /// How many spots were confirmed.
    pub spots_confirmed: usize,
}

impl DoctorReport {
    pub open spec fn spec_verdict(self) -> Verdict {
        if self.track_meta_count == 0 {
            Verdict::NoSignal
        } else if self.spots_confirmed > 0 {
            Verdict::Decoding
        } else {
            match self.snr_db_median {
                Some(median) => if median.code <= NOISE_FLOOR_SNR_DB {
                    Verdict::NoisyNoDecode
                } else {
                    Verdict::WeakNoDecode
                },
                None => Verdict::WeakNoDecode,
            }
        }
    }

    /// Classify the run.
    pub fn verdict(&self) -> (verdict: Verdict)
        ensures
            verdict == self.spec_verdict(),
    {
        if self.track_meta_count == 0 {
            return Verdict::NoSignal;
        }
        if self.spots_confirmed > 0 {
            return Verdict::Decoding;
        }
        match self.snr_db_median {
            Some(median) => if median.code <= NOISE_FLOOR_SNR_DB {
                Verdict::NoisyNoDecode
            } else {
                Verdict::WeakNoDecode
            },
            None => Verdict::WeakNoDecode,
        }
    }
}

/// How many of the levels are at most `code`.
pub open spec fn count_up_to(values: Seq<Level>, code: int) -> nat
    decreases values.len(),
{
    if values.len() == 0 {
        0
    } else {
        count_up_to(values.drop_last(), code) + (if values.last().code <= code {
            1nat
        } else {
            0nat
        })
    }
}

/// In ascending order `level` stands in the middle, the upper one of the two if there are
/// two.
pub open spec fn is_median(values: Seq<Level>, level: Level) -> bool {
    count_up_to(values, level.code - 1) <= values.len() / 2 < count_up_to(values, level.code as int)
}

fn count_levels(values: &Vec<Level>, code: i64) -> (count: usize)
    ensures
        count == count_up_to(values@, code as int),
        count <= values.len(),
{
    let mut count: usize = 0;
    let mut i: usize = 0;
    proof {
        assert(values@.take(0) =~= Seq::<Level>::empty());
    }
    while i < values.len()
        invariant
            i <= values.len(),
            count <= i,
            count == count_up_to(values@.take(i as int), code as int),
        decreases values.len() - i,
    {
        proof {
            assert(values@.take(i + 1).drop_last() =~= values@.take(i as int));
        }
        if values[i].code as i64 <= code {
            count = count + 1;
        }
        i = i + 1;
    }
    proof {
        assert(values@.take(i as int) =~= values@);
    }
    count
}

proof fn lemma_count_at_the_ends(values: Seq<Level>)
    ensures
        count_up_to(values, i32::MIN - 1) == 0,
        count_up_to(values, i32::MAX as int) == values.len(),
    decreases values.len(),
{
    if values.len() > 0 {
        lemma_count_at_the_ends(values.drop_last());
    }
}

proof fn lemma_count_grows(values: Seq<Level>, a: int, b: int)
    requires
        a <= b,
    ensures
        count_up_to(values, a) <= count_up_to(values, b),
        count_up_to(values, a) < count_up_to(values, b) ==> exists|i: int|
            0 <= i < values.len() && a < (#[trigger] values[i]).code <= b,
    decreases values.len(),
{
    if values.len() > 0 {
        let rest = values.drop_last();
        lemma_count_grows(rest, a, b);
        if count_up_to(values, a) < count_up_to(values, b) {
            if a < values.last().code <= b {
                assert(a < values[values.len() - 1].code <= b);
            } else {
                let i = choose|i: int| 0 <= i < rest.len() && a < (#[trigger] rest[i]).code <= b;
                assert(a < values[i].code <= b);
            }
        }
    }
}

/// The median, or nothing of nothing.
pub fn median(values: &Vec<Level>) -> (level: Option<Level>)
    ensures
        match level {
            None => values@.len() == 0,
            Some(level) => values@.len() > 0 && is_median(values@, level),
        },
{
    if values.len() == 0 {
        return None;
    }
    let half: usize = values.len() / 2;
    let mut low: i64 = i32::MIN as i64;
    let mut high: i64 = i32::MAX as i64;
    proof {
        lemma_count_at_the_ends(values@);
    }
    while low < high
        invariant
            i32::MIN <= low <= high <= i32::MAX,
            half == values@.len() / 2,
            count_up_to(values@, low - 1) <= half < count_up_to(values@, high as int),
        decreases high - low,
    {
        let middle: i64 = low + ((high - low) as u64 / 2) as i64;
        if count_levels(values, middle) > half {
            high = middle;
        } else {
            low = middle + 1;
        }
    }
    Some(Level { code: low as i32 })
}

/// No two levels are both the median; the median is one of the levels.
pub proof fn law_the_median_is_one_of_the_levels(values: Seq<Level>, a: Level, b: Level)
    requires
        is_median(values, a),
        is_median(values, b),
    ensures
        a == b,
        values.contains(a),
{
    if a.code < b.code {
        lemma_count_grows(values, a.code as int, b.code - 1);
    } else if b.code < a.code {
        lemma_count_grows(values, b.code as int, a.code - 1);
    }
    lemma_count_grows(values, a.code - 1, a.code as int);
    let i = choose|i: int| 0 <= i < values.len() && a.code - 1 < (#[trigger] values[i]).code <= a.code;
    assert(values[i] == a);
}

/// The lowest level.
pub open spec fn is_lowest(values: Seq<Level>, level: Level) -> bool {
    values.contains(level) && forall|i: int|
        0 <= i < values.len() ==> level.code <= (#[trigger] values[i]).code
}

/// The highest level.
pub open spec fn is_highest(values: Seq<Level>, level: Level) -> bool {
    values.contains(level) && forall|i: int|
        0 <= i < values.len() ==> (#[trigger] values[i]).code <= level.code
}

/// The lowest and the highest level, or nothing of nothing.
fn extremes(values: &Vec<Level>) -> (out: (Option<Level>, Option<Level>))
    ensures
        match out.0 {
            None => values@.len() == 0,
            Some(level) => is_lowest(values@, level),
        },
        match out.1 {
            None => values@.len() == 0,
            Some(level) => is_highest(values@, level),
        },
{
    if values.len() == 0 {
        return (None, None);
    }
    let mut low = values[0];
    let mut high = values[0];
    let mut i: usize = 1;
    proof {
        assert(values@.contains(values@[0]));
    }
    while i < values.len()
        invariant
            1 <= i <= values.len(),
            values@.contains(low),
            values@.contains(high),
            forall|j: int|
                0 <= j < i ==> low.code <= (#[trigger] values@[j]).code <= high.code,
        decreases values.len() - i,
    {
        let v = values[i];
        proof {
            assert(values@.contains(values@[i as int]));
        }
        if v.code < low.code {
            low = v;
        }
        if v.code > high.code {
            high = v;
        }
        i = i + 1;
    }
    (Some(low), Some(high))
}

/// What has been seen so far.
#[verifier::ext_equal]
pub ghost struct TallyModel {
    pub snrs: Seq<Level>,
    pub closed: nat,
    pub chars: nat,
    pub letters: Set<char>,
    pub spots: nat,
}

impl TallyModel {
    /// Nothing seen.
    pub open spec fn nothing() -> Self {
        TallyModel { snrs: Seq::empty(), closed: 0, chars: 0, letters: Set::empty(), spots: 0 }
    }

    /// One more event.
    pub open spec fn after(self, ev: DecoderEvent) -> Self {
        match ev {
            DecoderEvent::TrackMeta { snr_2500_db, .. } => TallyModel {
                snrs: self.snrs.push(snr_2500_db),
                ..self
            },
            DecoderEvent::TrackClosed { .. } => TallyModel { closed: self.closed + 1, ..self },
            DecoderEvent::CharDecoded { glyph, .. } => TallyModel {
                chars: self.chars + 1,
                letters: match glyph.spec_text_char() {
                    Some(c) => self.letters.insert(c),
                    None => self.letters,
                },
                ..self
            },
            _ => self,
        }
    }

    /// The counters have room for one more.
    pub open spec fn has_room(self) -> bool {
        self.closed < usize::MAX && self.chars < usize::MAX && self.spots < usize::MAX
    }
}

/// Tabulates the events and spots of a run.
pub struct DoctorTally {
    snrs: Vec<Level>,
    tracks_closed: usize,
    chars_decoded: usize,
    letters: Vec<char>,
    spots_confirmed: usize,
}

impl View for DoctorTally {
    type V = TallyModel;

    closed spec fn view(&self) -> TallyModel {
        TallyModel {
            snrs: self.snrs@,
            closed: self.tracks_closed as nat,
            chars: self.chars_decoded as nat,
            letters: self.letters@.to_set(),
            spots: self.spots_confirmed as nat,
        }
    }
}

impl DoctorTally {
    pub closed spec fn wf(&self) -> bool {
        self.letters@.no_duplicates()
    }

    pub fn new() -> (tally: Self)
        ensures
            tally.wf(),
            tally@ == TallyModel::nothing(),
    {
        let tally = DoctorTally {
            snrs: Vec::new(),
            tracks_closed: 0,
            chars_decoded: 0,
            letters: Vec::new(),
            spots_confirmed: 0,
        };
        proof {
            assert(tally@.letters =~= Set::<char>::empty());
        }
        tally
    }

    /// Count an event in.
    pub fn on_event(&mut self, ev: &DecoderEvent)
        requires
            old(self).wf(),
            old(self)@.has_room(),
        ensures
            final(self).wf(),
            final(self)@ == old(self)@.after(*ev),
    {
        match *ev {
            DecoderEvent::TrackMeta { snr_2500_db, .. } => {
                self.snrs.push(snr_2500_db);
            },
            DecoderEvent::TrackClosed { .. } => {
                self.tracks_closed = self.tracks_closed + 1;
            },
            DecoderEvent::CharDecoded { glyph, .. } => {
                self.chars_decoded = self.chars_decoded + 1;
                if let Some(c) = glyph.text_char() {
                    self.note_letter(c);
                }
            },
            _ => {},
        }
        proof {
            assert(self@ =~= old(self)@.after(*ev));
        }
    }

    fn note_letter(&mut self, c: char)
        requires
            old(self).wf(),
        ensures
            final(self).wf(),
            final(self)@ == (TallyModel { letters: old(self)@.letters.insert(c), ..old(self)@ }),
    {
        let mut i: usize = 0;
        while i < self.letters.len()
            invariant
                i <= self.letters.len(),
                *self == *old(self),
                self.wf(),
                forall|j: int| 0 <= j < i ==> self.letters@[j] != c,
            decreases self.letters.len() - i,
        {
            if self.letters[i] == c {
                proof {
                    assert(self.letters@.contains(c));
                    assert(self@.letters =~= old(self)@.letters.insert(c));
                    assert(self@ =~= (TallyModel {
                        letters: old(self)@.letters.insert(c),
                        ..old(self)@
                    }));
                }
                return ;
            }
            i = i + 1;
        }
        self.letters.push(c);
        proof {
            assert(self@.letters =~= old(self)@.letters.insert(c)) by {
                assert forall|x: char| self@.letters.contains(x) <==> #[trigger] old(
                    self,
                )@.letters.insert(c).contains(x) by {
                    if old(self).letters@.contains(x) {
                        let j = choose|j: int|
                            0 <= j < old(self).letters@.len() && old(self).letters@[j] == x;
                        assert(self.letters@[j] == x);
                    }
                    if x == c {
                        assert(self.letters@[self.letters@.len() - 1] == c);
                    }
                }
            }
            assert(self@ =~= (TallyModel { letters: old(self)@.letters.insert(c), ..old(self)@ }));
        }
    }

    /// Count a confirmed spot in.
    pub fn on_spot(&mut self)
        requires
            old(self).wf(),
            old(self)@.has_room(),
        ensures
            final(self).wf(),
            final(self)@ == (TallyModel { spots: old(self)@.spots + 1, ..old(self)@ }),
    {
        self.spots_confirmed = self.spots_confirmed + 1;
        proof {
            assert(self@ =~= (TallyModel { spots: old(self)@.spots + 1, ..old(self)@ }));
        }
    }

    /// The report of the run.
    pub fn report(&self, sample_rate_hz: Dyadic, center_freq_hz: Dyadic, duration_ns: u64) -> (
        report: DoctorReport)
        requires
            self.wf(),
        ensures
            report.sample_rate_hz == sample_rate_hz,
            report.center_freq_hz == center_freq_hz,
            report.duration_ns == duration_ns,
            report.track_meta_count == self@.snrs.len(),
            report.tracks_closed == self@.closed,
            report.chars_decoded == self@.chars,
            report.distinct_chars == self@.letters.len(),
            report.spots_confirmed == self@.spots,
            match report.snr_db_min {
                None => self@.snrs.len() == 0,
                Some(level) => is_lowest(self@.snrs, level),
            },
            match report.snr_db_max {
                None => self@.snrs.len() == 0,
                Some(level) => is_highest(self@.snrs, level),
            },
            match report.snr_db_median {
                None => self@.snrs.len() == 0,
                Some(level) => self@.snrs.len() > 0 && is_median(self@.snrs, level),
            },
    {
        proof {
            self.letters@.unique_seq_to_set();
        }
        let (snr_db_min, snr_db_max) = extremes(&self.snrs);
        DoctorReport {
            sample_rate_hz,
            center_freq_hz,
            duration_ns,
            track_meta_count: self.snrs.len(),
            tracks_closed: self.tracks_closed,
            snr_db_min,
            snr_db_max,
            snr_db_median: median(&self.snrs),
            chars_decoded: self.chars_decoded,
            distinct_chars: self.letters.len(),
            spots_confirmed: self.spots_confirmed,
        }
    }
}

/// A run without any track data has no signal, whatever else was counted.
pub proof fn law_no_track_data_means_no_signal(report: DoctorReport)
    ensures
        report.spec_verdict() == Verdict::NoSignal <==> report.track_meta_count == 0,
        report.spec_verdict() == Verdict::Decoding <==> report.track_meta_count > 0
            && report.spots_confirmed > 0,
{
}

/// What a run says, told by what was seen of it: nothing without track data; otherwise that it
/// decodes where a spot was confirmed; and without one, noise or a weak signal, as the median
/// is at or below zero dB or above it.
pub proof fn law_the_verdict_is_told_by_what_was_seen(report: DoctorReport)
    ensures
        report.track_meta_count == 0 ==> report.spec_verdict() == Verdict::NoSignal,
        report.track_meta_count > 0 && report.spots_confirmed > 0 ==> report.spec_verdict()
            == Verdict::Decoding,
        report.track_meta_count > 0 && report.spots_confirmed == 0 ==> report.spec_verdict() == (
        if report.snr_db_median is Some && report.snr_db_median->0.code <= 0 {
            Verdict::NoisyNoDecode
        } else {
            Verdict::WeakNoDecode
        }),
{
}

proof fn lemma_count_in_order(values: Seq<Level>, code: int, at: int)
    requires
        forall|i: int, j: int|
            0 <= i <= j < values.len() ==> (#[trigger] values[i]).code <= (
            #[trigger] values[j]).code,
        0 <= at <= values.len(),
        forall|i: int| 0 <= i < at ==> (#[trigger] values[i]).code <= code,
        at < values.len() ==> values[at].code > code,
    ensures
        count_up_to(values, code) == at,
    decreases values.len(),
{
    if values.len() > 0 {
        let rest = values.drop_last();
        let last = values[values.len() - 1];
        if at == values.len() {
            lemma_count_in_order(rest, code, at - 1);
        } else {
            assert(values[at].code <= last.code);
            if at < rest.len() {
                assert(rest[at] == values[at]);
            }
            lemma_count_in_order(rest, code, at);
        }
    }
}

proof fn lemma_count_of_permutation(a: Seq<Level>, b: Seq<Level>, code: int)
    requires
        a.to_multiset() == b.to_multiset(),
    ensures
        count_up_to(a, code) == count_up_to(b, code),
{
    lemma_count_is_of_multiset(a, code);
    lemma_count_is_of_multiset(b, code);
}

proof fn lemma_count_is_of_multiset(values: Seq<Level>, code: int)
    ensures
        count_up_to(values, code) == values.to_multiset().filter(
            |level: Level| level.code <= code,
        ).len(),
    decreases values.len(),
{
    broadcast use vstd::multiset::group_multiset_axioms;

    let low = |level: Level| level.code <= code;
    if values.len() == 0 {
        assert(values.to_multiset() =~= vstd::multiset::Multiset::empty()) by {
            broadcast use vstd::seq_lib::group_to_multiset_ensures;

        }
        assert(values.to_multiset().filter(low) =~= vstd::multiset::Multiset::empty());
    } else {
        let rest = values.drop_last();
        let last = values.last();
        lemma_count_is_of_multiset(rest, code);
        assert(values =~= rest.push(last));
        vstd::seq_lib::to_multiset_build(rest, last);
        let (a, b) = (rest.to_multiset().filter(low), values.to_multiset().filter(low));
        if low(last) {
            assert(b =~= a.insert(last));
        } else {
            assert(b =~= a);
        }
    }
}

/// The median is what stands in the middle when the levels are put in order, the upper one of
/// the two in the middle where there are two.
pub proof fn law_the_median_stands_in_the_middle(
    values: Seq<Level>,
    in_order: Seq<Level>,
    level: Level,
)
    requires
        values.to_multiset() == in_order.to_multiset(),
        in_order.len() == values.len(),
        values.len() > 0,
        forall|i: int, j: int|
            0 <= i <= j < in_order.len() ==> (#[trigger] in_order[i]).code <= (
            #[trigger] in_order[j]).code,
    ensures
        is_median(values, level) <==> level == in_order[in_order.len() as int / 2],
{
    let half = in_order.len() as int / 2;
    let middle = in_order[half];
    let (at, above) = lemma_run_around(in_order, half);
    lemma_count_in_order(in_order, middle.code - 1, at);
    lemma_count_in_order(in_order, middle.code as int, above);
    lemma_count_of_permutation(values, in_order, middle.code - 1);
    lemma_count_of_permutation(values, in_order, middle.code as int);
    assert(is_median(values, middle));
    if is_median(values, level) {
        law_the_median_is_one_of_the_levels(values, level, middle);
    }
}

/// Where the run of equal levels around a place begins and ends.
proof fn lemma_run_around(values: Seq<Level>, half: int) -> (run: (int, int))
    requires
        0 <= half < values.len(),
        forall|i: int, j: int|
            0 <= i <= j < values.len() ==> (#[trigger] values[i]).code <= (
            #[trigger] values[j]).code,
    ensures
        0 <= run.0 <= half < run.1 <= values.len(),
        forall|i: int| 0 <= i < run.0 ==> (#[trigger] values[i]).code <= values[half].code - 1,
        values[run.0].code > values[half].code - 1,
        forall|i: int| 0 <= i < run.1 ==> (#[trigger] values[i]).code <= values[half].code,
        run.1 < values.len() ==> values[run.1].code > values[half].code,
{
    (lemma_run_start(values, half, half), lemma_run_end(values, half, half + 1))
}

proof fn lemma_run_start(values: Seq<Level>, half: int, at: int) -> (start: int)
    requires
        0 <= at <= half < values.len(),
        values[at].code == values[half].code,
        forall|i: int, j: int|
            0 <= i <= j < values.len() ==> (#[trigger] values[i]).code <= (
            #[trigger] values[j]).code,
    ensures
        0 <= start <= half,
        forall|i: int| 0 <= i < start ==> (#[trigger] values[i]).code <= values[half].code - 1,
        values[start].code > values[half].code - 1,
    decreases at,
{
    if at > 0 && values[at - 1].code == values[half].code {
        lemma_run_start(values, half, at - 1)
    } else {
        if at > 0 {
            assert(values[at - 1].code <= values[half].code);
            assert forall|i: int| 0 <= i < at implies (#[trigger] values[i]).code
                <= values[half].code - 1 by {
                assert(values[i].code <= values[at - 1].code);
            }
        }
        at
    }
}

proof fn lemma_run_end(values: Seq<Level>, half: int, at: int) -> (end: int)
    requires
        0 <= half < at <= values.len(),
        forall|i: int| 0 <= i < at ==> (#[trigger] values[i]).code <= values[half].code,
        forall|i: int, j: int|
            0 <= i <= j < values.len() ==> (#[trigger] values[i]).code <= (
            #[trigger] values[j]).code,
    ensures
        half < end <= values.len(),
        forall|i: int| 0 <= i < end ==> (#[trigger] values[i]).code <= values[half].code,
        end < values.len() ==> values[end].code > values[half].code,
    decreases values.len() - at,
{
    if at < values.len() && values[at].code <= values[half].code {
        lemma_run_end(values, half, at + 1)
    } else {
        at
    }
}

/// What has been seen after events.
pub open spec fn tallied(events: Seq<DecoderEvent>) -> TallyModel
    decreases events.len(),
{
    if events.len() == 0 {
        TallyModel::nothing()
    } else {
        tallied(events.drop_last()).after(events.last())
    }
}

/// A run is tallied by its events: every level that a track gave with its data, in order; every
/// closure; every decoded sign, procedural ones too; and of the characters each one that was
/// decoded at least once.
pub proof fn law_a_run_is_tallied_by_its_events(events: Seq<DecoderEvent>)
    ensures
        ({
            let t = tallied(events);
            &&& t.snrs == events.filter(|e: DecoderEvent| e is TrackMeta).map_values(
                |e: DecoderEvent| e->TrackMeta_snr_2500_db,
            )
            &&& t.closed == events.filter(|e: DecoderEvent| e is TrackClosed).len()
            &&& t.chars == events.filter(|e: DecoderEvent| e is CharDecoded).len()
            &&& t.spots == 0
            &&& forall|c: char|
                #[trigger] t.letters.contains(c) <==> exists|i: int|
                    0 <= i < events.len() && (#[trigger] events[i] matches
                        DecoderEvent::CharDecoded { glyph, .. } && glyph
                        == crate::events::Glyph::Char(c))
        }),
    decreases events.len(),
{
    reveal(Seq::filter);
    let level = |e: DecoderEvent| e->TrackMeta_snr_2500_db;
    if events.len() == 0 {
        assert(tallied(events).snrs =~= events.filter(
            |e: DecoderEvent| e is TrackMeta,
        ).map_values(level));
    } else {
        let rest = events.drop_last();
        let last = events.last();
        law_a_run_is_tallied_by_its_events(rest);
        let (t, r) = (tallied(events), tallied(rest));
        let metas = rest.filter(|e: DecoderEvent| e is TrackMeta);
        assert(metas.push(last).map_values(level) =~= metas.map_values(level).push(level(last)));
        assert forall|c: char|
            #[trigger] t.letters.contains(c) <==> exists|i: int|
                0 <= i < events.len() && (#[trigger] events[i] matches DecoderEvent::CharDecoded {
                    glyph,
                    ..
                } && glyph == crate::events::Glyph::Char(c)) by {
            if r.letters.contains(c) {
                let i = choose|i: int|
                    0 <= i < rest.len() && (#[trigger] rest[i] matches DecoderEvent::CharDecoded {
                        glyph,
                        ..
                    } && glyph == crate::events::Glyph::Char(c));
                assert(events[i] == rest[i]);
            }
            if exists|i: int|
                0 <= i < events.len() && (#[trigger] events[i] matches DecoderEvent::CharDecoded {
                    glyph,
                    ..
                } && glyph == crate::events::Glyph::Char(c)) {
                let i = choose|i: int|
                    0 <= i < events.len() && (#[trigger] events[i] matches
                        DecoderEvent::CharDecoded { glyph, .. } && glyph
                        == crate::events::Glyph::Char(c));
                if i < rest.len() {
                    assert(rest[i] == events[i]);
                }
            }
            if t.letters.contains(c) && !r.letters.contains(c) {
                assert(events[events.len() - 1] == last);
            }
        }
    }
}

/// The lowest level is one of the levels and none is below it, the highest one of them and none
/// is above it.
pub proof fn law_extremes_bound_all_levels(values: Seq<Level>, low: Level, high: Level, i: int)
    requires
        is_lowest(values, low),
        is_highest(values, high),
        0 <= i < values.len(),
    ensures
        low.code <= values[i].code <= high.code,
        values.contains(low),
        values.contains(high),
{
}

} // verus!
