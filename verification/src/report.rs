//! What a finished run reports: which track speaks for it, at which frequency, and why
//! there may be nothing to report.

use crate::dyadic::Dyadic;
use crate::events::{event_track_id, of_track, spec_event_track_id, DecoderEvent};
use crate::level::{Level, Single};
use vstd::prelude::*;

verus! {

/// One complex sample.
#[derive(Debug, Clone, Copy, PartialEq, Eq, Structural)]
pub struct Sample {
    pub re: Single,
    pub im: Single,
}

/// Nothing but zeros.
pub open spec fn silent(samples: Seq<Sample>) -> bool {
    forall|i: int|
        0 <= i < samples.len() ==> (#[trigger] samples[i]).re.zero() && samples[i].im.zero()
}

/// The input is digital silence.
pub fn is_digital_silence(samples: &Vec<Sample>) -> (yes: bool)
    ensures
        yes == silent(samples@),
{
    let mut i: usize = 0;
    while i < samples.len()
        invariant
            i <= samples.len(),
            forall|j: int|
                0 <= j < i ==> (#[trigger] samples@[j]).re.zero() && samples@[j].im.zero(),
        decreases samples.len() - i,
    {
        if !samples[i].re.is_zero() || !samples[i].im.is_zero() {
            return false;
        }
        i = i + 1;
    }
    true
}

/// The event puts a character into the text of its track.
pub open spec fn renders(e: DecoderEvent) -> bool {
    e matches DecoderEvent::CharDecoded { glyph, .. } && glyph.spec_text_char() is Some
}

fn is_rendered(e: &DecoderEvent) -> (yes: bool)
    ensures
        yes == renders(*e),
{
    match *e {
        DecoderEvent::CharDecoded { glyph, .. } => glyph.text_char().is_some(),
        _ => false,
    }
}

/// How many characters a track put into its text.
pub open spec fn rendered(events: Seq<DecoderEvent>, id: u32) -> nat
    decreases events.len(),
{
    if events.len() == 0 {
        0
    } else {
        rendered(events.drop_last(), id) + (if renders(events.last()) && spec_event_track_id(
            events.last(),
        ) == id {
            1nat
        } else {
            0nat
        })
    }
}

/// Some event belongs to the track.
pub open spec fn present(events: Seq<DecoderEvent>, id: u32) -> bool {
    exists|i: int| 0 <= i < events.len() && spec_event_track_id(#[trigger] events[i]) == id
}

/// The track that speaks for the run: of those present the one with the most characters,
/// the lowest identity among equals.
pub open spec fn is_report_track(events: Seq<DecoderEvent>, id: u32) -> bool {
    &&& present(events, id)
    &&& forall|other: u32|
        #[trigger] present(events, other) ==> {
            ||| rendered(events, other) < rendered(events, id)
            ||| rendered(events, other) == rendered(events, id) && id <= other
        }
}

/// A track and how many characters it has so far.
#[derive(Clone, Copy)]
struct Entry {
    id: u32,
    chars: usize,
}

spec fn table_is(table: Seq<Entry>, events: Seq<DecoderEvent>) -> bool {
    &&& forall|i: int|
        0 <= i < table.len() ==> present(events, (#[trigger] table[i]).id) && table[i].chars
            == rendered(events, table[i].id)
    &&& forall|i: int, j: int|
        0 <= i < j < table.len() ==> (#[trigger] table[i]).id != (#[trigger] table[j]).id
    &&& forall|id: u32| #[trigger]
        present(events, id) ==> exists|i: int| 0 <= i < table.len() && (#[trigger] table[i]).id == id
}

proof fn lemma_rendered_is_small(events: Seq<DecoderEvent>, id: u32)
    ensures
        rendered(events, id) <= events.len(),
        !present(events, id) ==> rendered(events, id) == 0,
    decreases events.len(),
{
    if events.len() > 0 {
        let rest = events.drop_last();
        lemma_rendered_is_small(rest, id);
        if present(rest, id) {
            let i = choose|i: int| 0 <= i < rest.len() && spec_event_track_id(#[trigger] rest[i]) == id;
            assert(spec_event_track_id(events[i]) == id);
        }
        if spec_event_track_id(events.last()) == id {
            assert(spec_event_track_id(events[events.len() - 1]) == id);
        }
    }
}

proof fn lemma_present_in_longer(events: Seq<DecoderEvent>, e: DecoderEvent, id: u32)
    ensures
        present(events.push(e), id) <==> present(events, id) || spec_event_track_id(e) == id,
{
    let more = events.push(e);
    if present(events, id) {
        let i = choose|i: int| 0 <= i < events.len() && spec_event_track_id(#[trigger] events[i]) == id;
        assert(spec_event_track_id(more[i]) == id);
    }
    if spec_event_track_id(e) == id {
        assert(spec_event_track_id(more[events.len() as int]) == id);
    }
    if present(more, id) {
        let i = choose|i: int| 0 <= i < more.len() && spec_event_track_id(#[trigger] more[i]) == id;
        if i < events.len() {
            assert(spec_event_track_id(events[i]) == id);
        }
    }
}

/// Count one event in.
fn count_event(table: &mut Vec<Entry>, e: &DecoderEvent, Ghost(events): Ghost<Seq<DecoderEvent>>)
    requires
        table_is(old(table)@, events),
        events.len() < usize::MAX,
    ensures
        table_is(final(table)@, events.push(*e)),
{
    let id: u32 = event_track_id(e);
    let step: usize = if is_rendered(e) { 1 } else { 0 };
    let ghost more = events.push(*e);
    proof {
        assert(more.drop_last() =~= events);
        assert forall|other: u32| other != id implies #[trigger] rendered(more, other) == rendered(
            events,
            other,
        ) by {}
        assert forall|other: u32| #[trigger] present(more, other) <==> present(events, other) || other
            == id by {
            lemma_present_in_longer(events, *e, other);
        }
        assert(rendered(more, id) == rendered(events, id) + step);
        lemma_rendered_is_small(events, id);
    }
    let mut i: usize = 0;
    while i < table.len()
        invariant
            i <= table.len(),
            table@ == old(table)@,
            table_is(table@, events),
            events.len() < usize::MAX,
            rendered(events, id) <= events.len(),
            step <= 1,
            id == spec_event_track_id(*e),
            more == events.push(*e),
            rendered(more, id) == rendered(events, id) + step,
            forall|other: u32| other != id ==> #[trigger] rendered(more, other) == rendered(
                events,
                other,
            ),
            forall|other: u32|
                #[trigger] present(more, other) <==> present(events, other) || other == id,
            forall|j: int| 0 <= j < i ==> (#[trigger] table@[j]).id != id,
        decreases table.len() - i,
    {
        if table[i].id == id {
            let chars: usize = table[i].chars + step;
            table.set(i, Entry { id, chars });
            proof {
                let before = old(table)@;
                assert forall|j: int| 0 <= j < table@.len() implies present(
                    more,
                    (#[trigger] table@[j]).id,
                ) && table@[j].chars == rendered(more, table@[j].id) by {
                    if j != i {
                        assert(table@[j] == before[j]);
                        assert(before[j].id != before[i as int].id);
                        assert(present(events, before[j].id));
                    }
                }
                assert forall|a: int, b: int| 0 <= a < b < table@.len() implies (
                #[trigger] table@[a]).id != (#[trigger] table@[b]).id by {
                    assert(before[a].id != before[b].id);
                }
                assert forall|other: u32| #[trigger] present(more, other) implies exists|j: int|
                    0 <= j < table@.len() && (#[trigger] table@[j]).id == other by {
                    if other == id {
                        assert(table@[i as int].id == id);
                    } else {
                        assert(present(events, other));
                        let j = choose|j: int| 0 <= j < before.len() && (#[trigger] before[j]).id
                            == other;
                        assert(table@[j].id == other);
                    }
                }
            }
            return ;
        }
        i = i + 1;
    }
    proof {
        if present(events, id) {
            let j = choose|j: int| 0 <= j < table@.len() && (#[trigger] table@[j]).id == id;
            assert(false);
        }
        lemma_rendered_is_small(events, id);
    }
    table.push(Entry { id, chars: step });
    proof {
        let before = old(table)@;
        assert forall|j: int| 0 <= j < table@.len() implies present(more, (#[trigger] table@[j]).id)
            && table@[j].chars == rendered(more, table@[j].id) by {
            if j < before.len() {
                assert(table@[j] == before[j]);
                assert(present(events, before[j].id));
            }
        }
        assert forall|a: int, b: int| 0 <= a < b < table@.len() implies (#[trigger] table@[a]).id
            != (#[trigger] table@[b]).id by {
            assert(table@[a] == before[a]);
            if b < before.len() {
                assert(table@[b] == before[b]);
            }
        }
        assert forall|other: u32| #[trigger] present(more, other) implies exists|j: int|
            0 <= j < table@.len() && (#[trigger] table@[j]).id == other by {
            if other == id {
                assert(table@[before.len() as int].id == id);
            } else {
                assert(present(events, other));
                let j = choose|j: int| 0 <= j < before.len() && (#[trigger] before[j]).id == other;
                assert(table@[j].id == other);
            }
        }
    }
}

/// Pick the track that speaks for the run.
pub fn select_report_track(events: &Vec<DecoderEvent>) -> (id: u32)
    requires
        events.len() > 0,
    ensures
        is_report_track(events@, id),
{
    let mut table: Vec<Entry> = Vec::new();
    let mut i: usize = 0;
    proof {
        assert(events@.take(0) =~= Seq::<DecoderEvent>::empty());
        assert(table_is(table@, events@.take(0)));
    }
    while i < events.len()
        invariant
            i <= events.len(),
            table_is(table@, events@.take(i as int)),
        decreases events.len() - i,
    {
        count_event(&mut table, &events[i], Ghost(events@.take(i as int)));
        proof {
            assert(events@.take(i + 1) =~= events@.take(i as int).push(events@[i as int]));
        }
        i = i + 1;
    }
    proof {
        assert(events@.take(i as int) =~= events@);
        assert(present(events@, spec_event_track_id(events@[0])));
    }
    let mut best: usize = 0;
    let mut j: usize = 1;
    while j < table.len()
        invariant
            1 <= j <= table.len(),
            best < j,
            forall|k: int|
                0 <= k < j ==> {
                    ||| (#[trigger] table@[k]).chars < table@[best as int].chars
                    ||| table@[k].chars == table@[best as int].chars && table@[best as int].id
                        <= table@[k].id
                },
        decreases table.len() - j,
    {
        let (a, b) = (table[j], table[best]);
        if a.chars > b.chars || (a.chars == b.chars && a.id < b.id) {
            best = j;
        }
        j = j + 1;
    }
    proof {
        let id = table@[best as int].id;
        assert forall|other: u32| #[trigger] present(events@, other) implies {
            ||| rendered(events@, other) < rendered(events@, id)
            ||| rendered(events@, other) == rendered(events@, id) && id <= other
        } by {
            let k = choose|k: int| 0 <= k < table@.len() && (#[trigger] table@[k]).id == other;
            assert(table@[k].chars == rendered(events@, other));
        }
    }
    table[best].id
}

proof fn lemma_rendered_is_a_count(events: Seq<DecoderEvent>, id: u32)
    ensures
        rendered(events, id) == events.to_multiset().filter(
            |e: DecoderEvent| renders(e) && spec_event_track_id(e) == id,
        ).len(),
    decreases events.len(),
{
    broadcast use vstd::multiset::group_multiset_axioms;

    let wanted = |e: DecoderEvent| renders(e) && spec_event_track_id(e) == id;
    if events.len() == 0 {
        assert(events.to_multiset() =~= vstd::multiset::Multiset::empty()) by {
            broadcast use vstd::seq_lib::group_to_multiset_ensures;

        }
        assert(events.to_multiset().filter(wanted) =~= vstd::multiset::Multiset::empty());
    } else {
        let rest = events.drop_last();
        let last = events.last();
        lemma_rendered_is_a_count(rest, id);
        assert(events =~= rest.push(last));
        vstd::seq_lib::to_multiset_build(rest, last);
        let (a, b) = (rest.to_multiset().filter(wanted), events.to_multiset().filter(wanted));
        if wanted(last) {
            assert(b =~= a.insert(last));
        } else {
            assert(b =~= a);
        }
    }
}

/// Which track speaks for the run depends only on which events there are, not on their
/// order.
pub proof fn law_report_track_is_order_independent(
    a: Seq<DecoderEvent>,
    b: Seq<DecoderEvent>,
    in_a: u32,
    in_b: u32,
)
    requires
        a.to_multiset() == b.to_multiset(),
        is_report_track(a, in_a),
        is_report_track(b, in_b),
    ensures
        in_a == in_b,
{
    assert forall|id: u32| #[trigger] rendered(a, id) == rendered(b, id) by {
        lemma_rendered_is_a_count(a, id);
        lemma_rendered_is_a_count(b, id);
    }
    lemma_present_by_multiset(a, b, in_a);
    lemma_present_by_multiset(b, a, in_b);
    assert(rendered(a, in_a) == rendered(b, in_a));
    assert(rendered(a, in_b) == rendered(b, in_b));
}

proof fn lemma_present_by_multiset(a: Seq<DecoderEvent>, b: Seq<DecoderEvent>, id: u32)
    requires
        a.to_multiset() == b.to_multiset(),
        present(a, id),
    ensures
        present(b, id),
{
    broadcast use vstd::seq_lib::group_to_multiset_ensures;

    let i = choose|i: int| 0 <= i < a.len() && spec_event_track_id(#[trigger] a[i]) == id;
    let e = a[i];
    assert(a.contains(e));
    assert(a.to_multiset().count(e) > 0);
    assert(b.contains(e));
    let j = choose|j: int| 0 <= j < b.len() && b[j] == e;
    assert(spec_event_track_id(b[j]) == id);
}

/// The frequency that the last track data among `events` gives.
pub open spec fn last_meta_freq(events: Seq<DecoderEvent>) -> Option<Dyadic>
    decreases events.len(),
{
    if events.len() == 0 {
        None
    } else {
        match events.last() {
            DecoderEvent::TrackMeta { freq_hz, .. } => Some(freq_hz),
            _ => last_meta_freq(events.drop_last()),
        }
    }
}

fn find_meta_freq(events: &Vec<DecoderEvent>) -> (freq: Option<Dyadic>)
    ensures
        freq == last_meta_freq(events@),
{
    let mut i: usize = events.len();
    proof {
        assert(events@.take(i as int) =~= events@);
    }
    while i > 0
        invariant
            i <= events.len(),
            last_meta_freq(events@) == last_meta_freq(events@.take(i as int)),
        decreases i,
    {
        proof {
            assert(events@.take(i as int).drop_last() =~= events@.take(i - 1));
        }
        if let DecoderEvent::TrackMeta { freq_hz, .. } = events[i - 1] {
            return Some(freq_hz);
        }
        i = i - 1;
    }
    None
}

pub open spec fn spec_report_freq_hz(
    this_track: Seq<DecoderEvent>,
    all_events: Seq<DecoderEvent>,
    center_freq_hz: Dyadic,
) -> Dyadic {
    match last_meta_freq(this_track) {
        Some(freq) => freq,
        None => match last_meta_freq(all_events) {
            Some(freq) => freq,
            None => center_freq_hz,
        },
    }
}

/// The frequency of the report: the last one that the reporting track gave, or else the
/// last one that any track gave, or else the receiver's center.
pub fn report_freq_hz(
    this_track: &Vec<DecoderEvent>,
    all_events: &Vec<DecoderEvent>,
    center_freq_hz: Dyadic,
) -> (freq: Dyadic)
    ensures
        freq == spec_report_freq_hz(this_track@, all_events@, center_freq_hz),
{
    match find_meta_freq(this_track) {
        Some(freq) => freq,
        None => match find_meta_freq(all_events) {
            Some(freq) => freq,
            None => center_freq_hz,
        },
    }
}

/// The speed that was reported last.
pub open spec fn last_speed(events: Seq<DecoderEvent>) -> Option<Level>
    decreases events.len(),
{
    if events.len() == 0 {
        None
    } else {
        match events.last() {
            DecoderEvent::SpeedUpdate { wpm, .. } => Some(wpm),
            _ => last_speed(events.drop_last()),
        }
    }
}

fn find_last_speed(events: &Vec<DecoderEvent>) -> (wpm: Option<Level>)
    ensures
        wpm == last_speed(events@),
{
    let mut i: usize = events.len();
    proof {
        assert(events@.take(i as int) =~= events@);
    }
    while i > 0
        invariant
            i <= events.len(),
            last_speed(events@) == last_speed(events@.take(i as int)),
        decreases i,
    {
        proof {
            assert(events@.take(i as int).drop_last() =~= events@.take(i - 1));
        }
        if let DecoderEvent::SpeedUpdate { wpm, .. } = events[i - 1] {
            return Some(wpm);
        }
        i = i - 1;
    }
    None
}

/// The events of one track.
fn track_events(events: &Vec<DecoderEvent>, id: u32) -> (own: Vec<DecoderEvent>)
    ensures
        own@ == of_track(events@, id),
{
    let mut own: Vec<DecoderEvent> = Vec::new();
    let mut i: usize = 0;
    proof {
        assert(events@.take(0) =~= Seq::<DecoderEvent>::empty());
    }
    while i < events.len()
        invariant
            i <= events.len(),
            own@ == of_track(events@.take(i as int), id),
        decreases events.len() - i,
    {
        let e = events[i];
        proof {
            assert(events@.take(i + 1).drop_last() =~= events@.take(i as int));
        }
        if event_track_id(&e) == id {
            own.push(e);
        }
        i = i + 1;
    }
    proof {
        assert(events@.take(i as int) =~= events@);
    }
    own
}

/// A track data event with its frequency calibrated; any other event as it is. `calibrated`
/// is the calibrated frequency of a track data event and counts for nothing else.
pub fn calibrate_track_meta(ev: &DecoderEvent, calibrated: Dyadic) -> (out: DecoderEvent)
    ensures
        out == (match *ev {
            DecoderEvent::TrackMeta { track_id, sample_ts, snr_2500_db, .. } => {
                DecoderEvent::TrackMeta { track_id, sample_ts, snr_2500_db, freq_hz: calibrated }
            },
            other => other,
        }),
{
    match *ev {
        DecoderEvent::TrackMeta { track_id, sample_ts, snr_2500_db, .. } => {
            DecoderEvent::TrackMeta { track_id, sample_ts, snr_2500_db, freq_hz: calibrated }
        },
        other => other,
    }
}

/// Why a run has nothing to report.
#[derive(Debug, Clone, Copy, PartialEq, Eq, Structural)]
pub enum DecodeFailure {
    /// The input holds nothing but zeros.
    DigitalSilence,
    /// The input is shorter than one filter length.
    TooShort,
    /// The detector found no signal.
    NothingPromoted { total_hops: u64 },
    /// The detector found signals, but no decoder had anything to say before they ended.
    NothingDecoded { total_hops: u64, promoted: u64 },
}

/// What a run reports of the track that speaks for it. The frequency is not calibrated.
pub struct DecodeReport {
    pub track_id: u32,
    pub freq_hz: Dyadic,
    pub wpm: Option<Level>,
    pub this_track: Vec<DecoderEvent>,
}

/// `report` is the judgement on a run over `samples`.
pub open spec fn judged(
    samples: Seq<Sample>,
    total_hops: u64,
    promoted: u64,
    events: Seq<DecoderEvent>,
    center_freq_hz: Dyadic,
    report: Result<DecodeReport, DecodeFailure>,
) -> bool {
    match report {
        Err(DecodeFailure::DigitalSilence) => silent(samples),
        Err(DecodeFailure::TooShort) => !silent(samples) && total_hops == 0,
        Err(DecodeFailure::NothingPromoted { total_hops: hops }) => {
            &&& !silent(samples) && total_hops > 0 && events.len() == 0
            &&& promoted == 0 && hops == total_hops
        },
        Err(DecodeFailure::NothingDecoded { total_hops: hops, promoted: tracks }) => {
            &&& !silent(samples) && total_hops > 0 && events.len() == 0
            &&& promoted > 0 && hops == total_hops && tracks == promoted
        },
        Ok(r) => {
            &&& !silent(samples) && total_hops > 0 && events.len() > 0
            &&& is_report_track(events, r.track_id)
            &&& r.this_track@ == of_track(events, r.track_id)
            &&& r.freq_hz == spec_report_freq_hz(r.this_track@, events, center_freq_hz)
            &&& r.wpm == last_speed(r.this_track@)
        },
    }
}

/// Judge a run over `samples`: `total_hops` hops came out of the channelizer, the detector
/// confirmed `promoted` tracks, and `events` is all that was reported.
pub fn decode_samples(
    samples: &Vec<Sample>,
    total_hops: u64,
    promoted: u64,
    events: &Vec<DecoderEvent>,
    center_freq_hz: Dyadic,
) -> (report: Result<DecodeReport, DecodeFailure>)
    ensures
        judged(samples@, total_hops, promoted, events@, center_freq_hz, report),
{
    if is_digital_silence(samples) {
        return Err(DecodeFailure::DigitalSilence);
    }
    if total_hops == 0 {
        return Err(DecodeFailure::TooShort);
    }
    if events.len() == 0 {
        if promoted == 0 {
            return Err(DecodeFailure::NothingPromoted { total_hops });
        }
        return Err(DecodeFailure::NothingDecoded { total_hops, promoted });
    }
    let track_id: u32 = select_report_track(events);
    let this_track = track_events(events, track_id);
    let freq_hz = report_freq_hz(&this_track, events, center_freq_hz);
    let wpm = find_last_speed(&this_track);
    Ok(DecodeReport { track_id, freq_hz, wpm, this_track })
}

/// Equal runs are judged alike: one of them cannot fail where the other does not, or say
/// anything else.
pub proof fn law_equal_runs_are_judged_alike(
    samples: Seq<Sample>,
    total_hops: u64,
    promoted: u64,
    events: Seq<DecoderEvent>,
    center_freq_hz: Dyadic,
    a: Result<DecodeReport, DecodeFailure>,
    b: Result<DecodeReport, DecodeFailure>,
)
    requires
        judged(samples, total_hops, promoted, events, center_freq_hz, a),
        judged(samples, total_hops, promoted, events, center_freq_hz, b),
    ensures
        match (a, b) {
            (Ok(x), Ok(y)) => {
                &&& x.track_id == y.track_id
                &&& x.freq_hz == y.freq_hz
                &&& x.wpm == y.wpm
                &&& x.this_track@ == y.this_track@
            },
            (Err(x), Err(y)) => x == y,
            _ => false,
        },
{
    if let (Ok(x), Ok(y)) = (a, b) {
        law_report_track_is_order_independent(events, events, x.track_id, y.track_id);
    }
}

/// The event gives a speed of the track.
pub open spec fn gives_speed(e: DecoderEvent, id: u32) -> bool {
    e matches DecoderEvent::SpeedUpdate { track_id, .. } && track_id == id
}

/// The event gives a frequency, of the track `only` where one is named.
pub open spec fn gives_freq(e: DecoderEvent, only: Option<u32>) -> bool {
    e matches DecoderEvent::TrackMeta { track_id, .. } && (only matches Some(id) ==> track_id == id)
}

/// Event `i` is the last of its kind: it gives the speed `wpm` of a track, and no later one
/// gives a speed of that track.
pub open spec fn gives_last_speed(
    events: Seq<DecoderEvent>,
    id: u32,
    i: int,
    wpm: Option<Level>,
) -> bool {
    &&& 0 <= i < events.len()
    &&& gives_speed(events[i], id)
    &&& wpm == Some(events[i]->SpeedUpdate_wpm)
    &&& forall|j: int| i < j < events.len() ==> !#[trigger] gives_speed(events[j], id)
}

/// Event `i` is the last of its kind: it gives the frequency of a track, of `only` where one
/// is named, and no later one does.
pub open spec fn gives_last_freq(
    events: Seq<DecoderEvent>,
    only: Option<u32>,
    i: int,
    freq: Dyadic,
) -> bool {
    &&& 0 <= i < events.len()
    &&& gives_freq(events[i], only)
    &&& events[i]->TrackMeta_freq_hz == freq
    &&& forall|j: int|
        i < j < events.len() ==> !#[trigger] gives_freq(events[j], only)
}

/// The speed of a track is the one that was given last: of all events of a run that give a
/// speed of the track, none comes later; and there is none where no event gives one.
pub proof fn law_the_last_speed_counts(events: Seq<DecoderEvent>, id: u32)
    ensures
        last_speed(of_track(events, id)) is Some ==> exists|i: int|
            #[trigger] gives_last_speed(events, id, i, last_speed(of_track(events, id))),
        last_speed(of_track(events, id)) is None ==> forall|i: int|
            0 <= i < events.len() ==> !#[trigger] gives_speed(events[i], id),
    decreases events.len(),
{
    if events.len() > 0 {
        let rest = events.drop_last();
        let last = events.last();
        law_the_last_speed_counts(rest, id);
        let own = of_track(events, id);
        if spec_event_track_id(last) == id {
            assert(own.drop_last() =~= of_track(rest, id));
        }
        if gives_speed(last, id) {
            assert(own == of_track(rest, id).push(last));
            assert(gives_last_speed(events, id, events.len() - 1, last_speed(own)));
        } else {
            assert(last_speed(own) == last_speed(of_track(rest, id)));
            if last_speed(own) is Some {
                let wpm = last_speed(own);
                let i = choose|i: int| #[trigger] gives_last_speed(rest, id, i, wpm);
                lemma_last_speed_in_longer(events, id, i, wpm);
            } else {
                assert forall|i: int| 0 <= i < events.len() implies !#[trigger] gives_speed(
                    events[i],
                    id,
                ) by {
                    if i < rest.len() {
                        assert(rest[i] == events[i]);
                    }
                }
            }
        }
    }
}

proof fn lemma_last_speed_in_longer(events: Seq<DecoderEvent>, id: u32, i: int, wpm: Option<Level>)
    requires
        events.len() > 0,
        gives_last_speed(events.drop_last(), id, i, wpm),
        !gives_speed(events.last(), id),
    ensures
        gives_last_speed(events, id, i, wpm),
{
    let rest = events.drop_last();
    assert(events[i] == rest[i]);
    assert forall|j: int| i < j < events.len() implies !#[trigger] gives_speed(events[j], id) by {
        if j < rest.len() {
            assert(rest[j] == events[j]);
        }
    }
}

/// The frequency of a track is the one that was given last: of all events of a run that give
/// a frequency of the track, none comes later; and there is none where no event gives one.
pub proof fn law_the_last_frequency_of_a_track_counts(events: Seq<DecoderEvent>, id: u32)
    ensures
        match last_meta_freq(of_track(events, id)) {
            Some(freq) => exists|i: int| #[trigger] gives_last_freq(events, Some(id), i, freq),
            None => forall|i: int|
                0 <= i < events.len() ==> !#[trigger] gives_freq(events[i], Some(id)),
        },
    decreases events.len(),
{
    if events.len() > 0 {
        let rest = events.drop_last();
        let last = events.last();
        law_the_last_frequency_of_a_track_counts(rest, id);
        let own = of_track(events, id);
        if spec_event_track_id(last) == id {
            assert(own.drop_last() =~= of_track(rest, id));
        }
        match last {
            DecoderEvent::TrackMeta { track_id, freq_hz, .. } if track_id == id => {
                assert(gives_last_freq(events, Some(id), events.len() - 1, freq_hz));
            },
            _ => {
                assert(last_meta_freq(own) == last_meta_freq(of_track(rest, id)));
                match last_meta_freq(own) {
                    Some(freq) => {
                        let i = choose|i: int| #[trigger] gives_last_freq(rest, Some(id), i, freq);
                        lemma_last_freq_in_longer(events, Some(id), i, freq);
                    },
                    None => {
                        assert forall|i: int| 0 <= i < events.len() implies !#[trigger] gives_freq(events[i], Some(id)) by {
                            if i < rest.len() {
                                assert(rest[i] == events[i]);
                            }
                        }
                    },
                }
            },
        }
    }
}

proof fn lemma_last_freq_in_longer(
    events: Seq<DecoderEvent>,
    only: Option<u32>,
    i: int,
    freq: Dyadic,
)
    requires
        events.len() > 0,
        gives_last_freq(events.drop_last(), only, i, freq),
        !gives_freq(events.last(), only),
    ensures
        gives_last_freq(events, only, i, freq),
{
    let rest = events.drop_last();
    assert(events[i] == rest[i]);
    assert forall|j: int| i < j < events.len() implies !#[trigger] gives_freq(events[j], only) by {
        if j < rest.len() {
            assert(rest[j] == events[j]);
        }
    }
}

/// The frequency that any track gave last.
pub proof fn law_the_last_frequency_counts(events: Seq<DecoderEvent>)
    ensures
        match last_meta_freq(events) {
            Some(freq) => exists|i: int| #[trigger] gives_last_freq(events, None, i, freq),
            None => forall|i: int|
                0 <= i < events.len() ==> !#[trigger] gives_freq(events[i], None),
        },
    decreases events.len(),
{
    if events.len() > 0 {
        let rest = events.drop_last();
        law_the_last_frequency_counts(rest);
        match events.last() {
            DecoderEvent::TrackMeta { freq_hz, .. } => {
                assert(gives_last_freq(events, None, events.len() - 1, freq_hz));
            },
            _ => match last_meta_freq(rest) {
                Some(freq) => {
                    let i = choose|i: int| #[trigger] gives_last_freq(rest, None, i, freq);
                    lemma_last_freq_in_longer(events, None, i, freq);
                },
                None => {
                    assert forall|i: int| 0 <= i < events.len() implies !#[trigger] gives_freq(events[i], None) by {
                        if i < rest.len() {
                            assert(rest[i] == events[i]);
                        }
                    }
                },
            },
        }
    }
}

/// A character that a track put into its text.
pub open spec fn text_of(id: u32) -> spec_fn(DecoderEvent) -> bool {
    |e: DecoderEvent|
        e matches DecoderEvent::CharDecoded { track_id, glyph, .. } && track_id == id && glyph is Char
}

/// A track's characters are those of its decoded signs that are letters, figures or marks,
/// each as often as it was decoded; procedural signs are none.
pub proof fn law_characters_are_counted(events: Seq<DecoderEvent>, id: u32)
    ensures
        rendered(events, id) == events.to_multiset().filter(text_of(id)).len(),
{
    lemma_rendered_is_a_count(events, id);
    let wanted = |e: DecoderEvent| renders(e) && spec_event_track_id(e) == id;
    assert forall|e: DecoderEvent| wanted(e) == #[trigger] text_of(id)(e) by {}
    assert(wanted =~= text_of(id));
}

/// What a run is judged to be, told from what came in and out of it. Nothing but zeros is
/// digital silence. Otherwise a run without hops was too short, and one without events failed
/// at the detector or behind it. In every other case there is a report, of a track that
/// reported something and put as many characters into its text as any other, with the speed
/// that it gave last, the frequency that it gave last, or else the one that any track gave
/// last, or else the receiver's center, and with all its events.
pub proof fn law_a_run_is_judged_by_what_came_of_it(
    samples: Seq<Sample>,
    total_hops: u64,
    promoted: u64,
    events: Seq<DecoderEvent>,
    center_freq_hz: Dyadic,
    report: Result<DecodeReport, DecodeFailure>,
)
    requires
        judged(samples, total_hops, promoted, events, center_freq_hz, report),
    ensures
        ({
            let zeros = forall|i: int|
                0 <= i < samples.len() ==> (#[trigger] samples[i]).re.bits % 0x8000_0000 == 0
                    && samples[i].im.bits % 0x8000_0000 == 0;
            &&& report == Err::<DecodeReport, DecodeFailure>(DecodeFailure::DigitalSilence) <==> zeros
            &&& report == Err::<DecodeReport, DecodeFailure>(DecodeFailure::TooShort) <==> !zeros
                && total_hops == 0
            &&& report == Err::<DecodeReport, DecodeFailure>(
                DecodeFailure::NothingPromoted { total_hops },
            ) <==> !zeros && total_hops > 0 && events.len() == 0 && promoted == 0
            &&& report == Err::<DecodeReport, DecodeFailure>(
                DecodeFailure::NothingDecoded { total_hops, promoted },
            ) <==> !zeros && total_hops > 0 && events.len() == 0 && promoted > 0
            &&& report is Ok <==> !zeros && total_hops > 0 && events.len() > 0
        }),
        report matches Ok(r) ==> {
            &&& exists|i: int|
                0 <= i < events.len() && spec_event_track_id(#[trigger] events[i]) == r.track_id
            &&& forall|i: int|
                0 <= i < events.len() ==> {
                    let other = spec_event_track_id(#[trigger] events[i]);
                    let (mine, theirs) = (
                        events.to_multiset().filter(text_of(r.track_id)).len(),
                        events.to_multiset().filter(text_of(other)).len(),
                    );
                    mine > theirs || mine == theirs && r.track_id <= other
                }
            &&& r.wpm is Some ==> exists|i: int|
                #[trigger] gives_last_speed(events, r.track_id, i, r.wpm)
            &&& r.wpm is None ==> forall|i: int|
                0 <= i < events.len() ==> !#[trigger] gives_speed(events[i], r.track_id)
            &&& {
                ||| exists|i: int|
                    #[trigger] gives_last_freq(events, Some(r.track_id), i, r.freq_hz)
                ||| (forall|i: int|
                    0 <= i < events.len() ==> !#[trigger] gives_freq(events[i], Some(r.track_id))) && (
                exists|i: int| #[trigger] gives_last_freq(events, None, i, r.freq_hz))
                ||| (forall|i: int| 0 <= i < events.len() ==> !#[trigger] gives_freq(events[i], None))
                    && r.freq_hz == center_freq_hz
            }
            &&& r.this_track@ == events.filter(
                |e: DecoderEvent| spec_event_track_id(e) == r.track_id,
            )
        },
{
    assert forall|x: Single| (#[trigger] x.bits) % 0x8000_0000 == 0 <==> x.zero() by {}
    if let Ok(r) = report {
        law_the_last_speed_counts(events, r.track_id);
        law_the_last_frequency_of_a_track_counts(events, r.track_id);
        law_the_last_frequency_counts(events);
        crate::events::law_the_events_of_a_track_keep_their_order(events, r.track_id);
        assert forall|i: int| 0 <= i < events.len() implies {
            let other = spec_event_track_id(#[trigger] events[i]);
            let (mine, theirs) = (
                events.to_multiset().filter(text_of(r.track_id)).len(),
                events.to_multiset().filter(text_of(other)).len(),
            );
            mine > theirs || mine == theirs && r.track_id <= other
        } by {
            let other = spec_event_track_id(events[i]);
            assert(present(events, other));
            law_characters_are_counted(events, r.track_id);
            law_characters_are_counted(events, other);
        }
    }
}

} // verus!
