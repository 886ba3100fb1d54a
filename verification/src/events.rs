//! What the decoders and the track manager report, and the order in which it leaves the
//! engine.

use crate::dyadic::Dyadic;
use crate::level::Level;
use vstd::prelude::*;

verus! {

/// A decoded sign.
#[derive(Debug, Clone, Copy, PartialEq, Eq, Structural)]
pub enum Glyph {
    /// A letter, figure or punctuation mark.
    Char(char),
    /// A procedural sign, by its place in the decoder's table. It has no place in text.
    Prosign(u8),
}

impl Glyph {
    pub open spec fn spec_text_char(self) -> Option<char> {
        match self {
            Glyph::Char(c) => Some(c),
            Glyph::Prosign(_) => None,
        }
    }

    /// The character that the sign puts into the text, if any.
    pub fn text_char(&self) -> (c: Option<char>)
        ensures
            c == self.spec_text_char(),
    {
        match *self {
            Glyph::Char(c) => Some(c),
            Glyph::Prosign(_) => None,
        }
    }
}

/// What the end of a track says about its signal.
#[derive(Debug, Clone, Copy, PartialEq, Eq, Structural)]
pub enum ClosureKind {
    /// The signal was seen to end.
    SignalEnded,
    /// The track was given up; its signal may go on, on the named track if there is one.
    Bookkeeping { survivor_track_id: Option<u32> },
}

/// One report of the engine.
#[derive(Debug, Clone, Copy, PartialEq, Eq, Structural)]
pub enum DecoderEvent {
    CharDecoded { track_id: u32, sample_ts: u64, glyph: Glyph, confidence: Level },
    WordBoundary { track_id: u32, sample_ts: u64 },
    SpeedUpdate { track_id: u32, wpm: Level },
    TrackMeta { track_id: u32, sample_ts: u64, snr_2500_db: Level, freq_hz: Dyadic },
    /// `offset` is the place of the track relative to the receiver's center, in billionths
    /// of a channel.
    TrackPromoted { track_id: u32, sample_ts: u64, offset: i64 },
    TrackClosed { track_id: u32, closure: ClosureKind },
}

/// What the engine sorts by: time first, then track, then kind.
#[derive(Debug, Clone, Copy, PartialEq, Eq, Structural)]
pub struct SortKey {
    pub ts: u64,
    pub track_id: u32,
    pub tier: u8,
}

impl SortKey {
    pub open spec fn before(self, other: SortKey) -> bool {
        ||| self.ts < other.ts
        ||| self.ts == other.ts && self.track_id < other.track_id
        ||| self.ts == other.ts && self.track_id == other.track_id && self.tier < other.tier
    }

    fn is_before(&self, other: &SortKey) -> (yes: bool)
        ensures
            yes == self.before(*other),
    {
        self.ts < other.ts || (self.ts == other.ts && (self.track_id < other.track_id || (
        self.track_id == other.track_id && self.tier < other.tier)))
    }
}

/// An event with the key that places it.
#[derive(Debug, Clone, Copy, PartialEq, Eq, Structural)]
pub struct Keyed {
    pub key: SortKey,
    pub event: DecoderEvent,
}

pub open spec fn spec_event_track_id(e: DecoderEvent) -> u32 {
    match e {
        DecoderEvent::CharDecoded { track_id, .. } => track_id,
        DecoderEvent::WordBoundary { track_id, .. } => track_id,
        DecoderEvent::SpeedUpdate { track_id, .. } => track_id,
        DecoderEvent::TrackMeta { track_id, .. } => track_id,
        DecoderEvent::TrackPromoted { track_id, .. } => track_id,
        DecoderEvent::TrackClosed { track_id, .. } => track_id,
    }
}

/// The track that an event belongs to.
pub fn event_track_id(e: &DecoderEvent) -> (id: u32)
    ensures
        id == spec_event_track_id(*e),
{
    match *e {
        DecoderEvent::CharDecoded { track_id, .. } => track_id,
        DecoderEvent::WordBoundary { track_id, .. } => track_id,
        DecoderEvent::SpeedUpdate { track_id, .. } => track_id,
        DecoderEvent::TrackMeta { track_id, .. } => track_id,
        DecoderEvent::TrackPromoted { track_id, .. } => track_id,
        DecoderEvent::TrackClosed { track_id, .. } => track_id,
    }
}

pub open spec fn spec_event_sample_ts(e: DecoderEvent) -> u64 {
    match e {
        DecoderEvent::CharDecoded { sample_ts, .. } => sample_ts,
        DecoderEvent::WordBoundary { sample_ts, .. } => sample_ts,
        DecoderEvent::SpeedUpdate { .. } => 0,
        DecoderEvent::TrackMeta { sample_ts, .. } => sample_ts,
        DecoderEvent::TrackPromoted { sample_ts, .. } => sample_ts,
        DecoderEvent::TrackClosed { .. } => u64::MAX,
    }
}

/// The sample that an event is tied to. A speed has none and counts as the beginning; a
/// closure has none and counts as the very end.
pub fn event_sample_ts(e: &DecoderEvent) -> (ts: u64)
    ensures
        ts == spec_event_sample_ts(*e),
{
    match *e {
        DecoderEvent::CharDecoded { sample_ts, .. } => sample_ts,
        DecoderEvent::WordBoundary { sample_ts, .. } => sample_ts,
        DecoderEvent::SpeedUpdate { .. } => 0,
        DecoderEvent::TrackMeta { sample_ts, .. } => sample_ts,
        DecoderEvent::TrackPromoted { sample_ts, .. } => sample_ts,
        DecoderEvent::TrackClosed { .. } => u64::MAX,
    }
}

/// The time of the last promotion of `track_id` among `promoted`.
pub open spec fn promotion_ts(promoted: Seq<DecoderEvent>, track_id: u32) -> Option<u64>
    decreases promoted.len(),
{
    if promoted.len() == 0 {
        None
    } else if spec_event_track_id(promoted.last()) == track_id {
        Some(spec_event_sample_ts(promoted.last()))
    } else {
        promotion_ts(promoted.drop_last(), track_id)
    }
}

fn find_promotion_ts(promoted: &Vec<DecoderEvent>, track_id: u32) -> (ts: Option<u64>)
    ensures
        ts == promotion_ts(promoted@, track_id),
{
    let mut i: usize = promoted.len();
    proof {
        assert(promoted@.take(i as int) =~= promoted@);
    }
    while i > 0
        invariant
            i <= promoted.len(),
            promotion_ts(promoted@, track_id) == promotion_ts(promoted@.take(i as int), track_id),
        decreases i,
    {
        proof {
            assert(promoted@.take(i as int).drop_last() =~= promoted@.take(i - 1));
        }
        let e = promoted[i - 1];
        if event_track_id(&e) == track_id {
            return Some(event_sample_ts(&e));
        }
        i = i - 1;
    }
    None
}

pub open spec fn spec_effective_sort_ts(e: DecoderEvent, promoted: Seq<DecoderEvent>) -> u64 {
    match e {
        DecoderEvent::SpeedUpdate { track_id, .. } => match promotion_ts(promoted, track_id) {
            Some(ts) => ts,
            None => 0,
        },
        _ => spec_event_sample_ts(e),
    }
}

/// The time by which an event is placed in its batch. A speed makes no claim of its own: it
/// goes to the beginning, or, when its own track was promoted in the same batch, to that
/// promotion.
pub fn effective_sort_ts(e: &DecoderEvent, promoted: &Vec<DecoderEvent>) -> (ts: u64)
    ensures
        ts == spec_effective_sort_ts(*e, promoted@),
{
    match *e {
        DecoderEvent::SpeedUpdate { track_id, .. } => match find_promotion_ts(promoted, track_id) {
            Some(ts) => ts,
            None => 0,
        },
        _ => event_sample_ts(e),
    }
}

pub open spec fn spec_event_kind_tier(e: DecoderEvent) -> u8 {
    if e is TrackPromoted {
        0
    } else {
        1
    }
}

/// A promotion goes before everything else of its track at the same time.
pub fn event_kind_tier(e: &DecoderEvent) -> (tier: u8)
    ensures
        tier == spec_event_kind_tier(*e),
{
    match *e {
        DecoderEvent::TrackPromoted { .. } => 0,
        _ => 1,
    }
}

/// Key of an event within a batch that saw the given promotions.
pub open spec fn batch_key(e: DecoderEvent, promoted: Seq<DecoderEvent>) -> SortKey {
    SortKey {
        ts: spec_effective_sort_ts(e, promoted),
        track_id: spec_event_track_id(e),
        tier: spec_event_kind_tier(e),
    }
}

/// Key of an event by its own time and track alone.
pub open spec fn time_key(e: DecoderEvent) -> SortKey {
    SortKey { ts: spec_event_sample_ts(e), track_id: spec_event_track_id(e), tier: 0 }
}

pub open spec fn keyed_for_batch(events: Seq<DecoderEvent>, promoted: Seq<DecoderEvent>) -> Seq<
    Keyed,
> {
    Seq::new(events.len(), |i: int| Keyed { key: batch_key(events[i], promoted), event: events[i] })
}

pub open spec fn keyed_by_time(events: Seq<DecoderEvent>) -> Seq<Keyed> {
    Seq::new(events.len(), |i: int| Keyed { key: time_key(events[i]), event: events[i] })
}

pub open spec fn events_of(items: Seq<Keyed>) -> Seq<DecoderEvent> {
    Seq::new(items.len(), |i: int| items[i].event)
}

/// Where an item goes in a sorted sequence: behind everything that does not come after it.
pub open spec fn insertion_point(sorted: Seq<Keyed>, key: SortKey) -> int
    decreases sorted.len(),
{
    if sorted.len() == 0 || !key.before(sorted.last().key) {
        sorted.len() as int
    } else {
        insertion_point(sorted.drop_last(), key)
    }
}

/// The items in the order of their keys; items with equal keys keep their order.
pub open spec fn stable_sorted(items: Seq<Keyed>) -> Seq<Keyed>
    decreases items.len(),
{
    if items.len() == 0 {
        items
    } else {
        let rest = stable_sorted(items.drop_last());
        rest.insert(insertion_point(rest, items.last().key), items.last())
    }
}

/// `out` holds the items of `items`, `place[i]` being the place in `items` of `out[i]`, in
/// the order of their keys and, for equal keys, of their places.
pub open spec fn sorts_stably(items: Seq<Keyed>, out: Seq<Keyed>, place: Seq<int>) -> bool {
    &&& out.len() == items.len()
    &&& place.len() == items.len()
    &&& forall|i: int|
        0 <= i < items.len() ==> 0 <= #[trigger] place[i] < items.len() && out[i] == items[place[i]]
    &&& forall|i: int, j: int|
        0 <= i < j < items.len() ==> {
            ||| (#[trigger] out[i]).key.before((#[trigger] out[j]).key)
            ||| out[i].key == out[j].key && place[i] < place[j]
        }
    &&& forall|k: int| 0 <= k < items.len() ==> #[trigger] place.contains(k)
}

proof fn lemma_insertion_point(sorted: Seq<Keyed>, key: SortKey)
    requires
        forall|i: int, j: int|
            0 <= i < j < sorted.len() ==> !(#[trigger] sorted[j]).key.before(
                (#[trigger] sorted[i]).key,
            ),
    ensures
        0 <= insertion_point(sorted, key) <= sorted.len(),
        forall|i: int|
            0 <= i < insertion_point(sorted, key) ==> !key.before((#[trigger] sorted[i]).key),
        forall|i: int|
            insertion_point(sorted, key) <= i < sorted.len() ==> key.before(
                (#[trigger] sorted[i]).key,
            ),
    decreases sorted.len(),
{
    if sorted.len() > 0 && key.before(sorted.last().key) {
        let rest = sorted.drop_last();
        assert forall|i: int, j: int| 0 <= i < j < rest.len() implies !(#[trigger] rest[j]).key.before(
            (#[trigger] rest[i]).key,
        ) by {
            assert(rest[j] == sorted[j] && rest[i] == sorted[i]);
        }
        lemma_insertion_point(rest, key);
        assert forall|i: int| 0 <= i < insertion_point(sorted, key) implies !key.before(
            (#[trigger] sorted[i]).key,
        ) by {
            assert(rest[i] == sorted[i]);
        }
        assert forall|i: int| insertion_point(sorted, key) <= i < sorted.len() implies key.before(
            (#[trigger] sorted[i]).key,
        ) by {
            if i < rest.len() {
                assert(rest[i] == sorted[i]);
            }
        }
    }
}

/// Sorting keeps every event once, orders by key, and keeps the order of events with equal
/// keys. The places are given back.
pub proof fn law_sorting_is_stable(items: Seq<Keyed>) -> (place: Seq<int>)
    ensures
        sorts_stably(items, stable_sorted(items), place),
    decreases items.len(),
{
    if items.len() == 0 {
        Seq::empty()
    } else {
        let rest = items.drop_last();
        let inner = law_sorting_is_stable(rest);
        let sorted = stable_sorted(rest);
        let last = items.last();
        assert forall|i: int, j: int| 0 <= i < j < sorted.len() implies !(#[trigger] sorted[j]).key.before(
            (#[trigger] sorted[i]).key,
        ) by {
            assert(sorted[i].key.before(sorted[j].key) || sorted[i].key == sorted[j].key);
        }
        lemma_insertion_point(sorted, last.key);
        let at = insertion_point(sorted, last.key);
        let out = stable_sorted(items);
        let place = inner.insert(at, items.len() - 1);
        assert forall|i: int| 0 <= i < items.len() implies 0 <= #[trigger] place[i] < items.len()
            && out[i] == items[place[i]] by {
            if i < at {
                assert(place[i] == inner[i] && out[i] == sorted[i]);
            } else if i > at {
                assert(place[i] == inner[i - 1] && out[i] == sorted[i - 1]);
            }
        }
        assert forall|i: int, j: int| 0 <= i < j < items.len() implies {
            ||| (#[trigger] out[i]).key.before((#[trigger] out[j]).key)
            ||| out[i].key == out[j].key && place[i] < place[j]
        } by {
            let si = if i < at { i } else { i - 1 };
            let sj = if j < at { j } else { j - 1 };
            if i != at {
                assert(out[i] == sorted[si] && place[i] == inner[si]);
            }
            if j != at {
                assert(out[j] == sorted[sj] && place[j] == inner[sj]);
            }
            if i == at {
                assert(last.key.before(sorted[sj].key));
            } else if j == at {
                assert(!last.key.before(sorted[si].key));
            }
        }
        assert forall|k: int| 0 <= k < items.len() implies #[trigger] place.contains(k) by {
            if k == items.len() - 1 {
                assert(place[at] == k);
            } else {
                assert(inner.contains(k));
                let i = choose|i: int| 0 <= i < inner.len() && inner[i] == k;
                if i < at {
                    assert(place[i] == k);
                } else {
                    assert(place[i + 1] == k);
                }
            }
        }
        place
    }
}

/// Sort events by their keys; events with equal keys keep their order.
pub fn sort_keyed(items: &Vec<Keyed>) -> (out: Vec<Keyed>)
    ensures
        out@ == stable_sorted(items@),
{
    let mut out: Vec<Keyed> = Vec::new();
    let mut i: usize = 0;
    proof {
        assert(items@.take(0) =~= Seq::<Keyed>::empty());
    }
    while i < items.len()
        invariant
            i <= items.len(),
            out@ == stable_sorted(items@.take(i as int)),
            out.len() == i,
        decreases items.len() - i,
    {
        let item = items[i];
        let mut at: usize = out.len();
        proof {
            assert(out@.take(at as int) =~= out@);
        }
        while at > 0 && item.key.is_before(&out[at - 1].key)
            invariant
                at <= out.len(),
                insertion_point(out@, item.key) == insertion_point(
                    out@.take(at as int),
                    item.key,
                ),
            decreases at,
        {
            proof {
                assert(out@.take(at as int).drop_last() =~= out@.take(at - 1));
            }
            at = at - 1;
        }
        proof {
            assert(insertion_point(out@.take(at as int), item.key) == at);
            assert(items@.take(i + 1).drop_last() =~= items@.take(i as int));
        }
        out.insert(at, item);
        i = i + 1;
    }
    proof {
        assert(items@.take(i as int) =~= items@);
    }
    out
}

/// The order in which a batch leaves the engine.
pub open spec fn batch_order(events: Seq<DecoderEvent>, promoted: Seq<DecoderEvent>) -> Seq<
    DecoderEvent,
> {
    events_of(stable_sorted(keyed_for_batch(events, promoted)))
}

/// The events in the order of their own times and tracks.
pub open spec fn time_order(events: Seq<DecoderEvent>) -> Seq<DecoderEvent> {
    events_of(stable_sorted(keyed_by_time(events)))
}

fn take_events(items: &Vec<Keyed>) -> (out: Vec<DecoderEvent>)
    ensures
        out@ == events_of(items@),
{
    let mut out: Vec<DecoderEvent> = Vec::new();
    let mut i: usize = 0;
    while i < items.len()
        invariant
            i <= items.len(),
            out.len() == i,
            forall|j: int| 0 <= j < i ==> out@[j] == items@[j].event,
        decreases items.len() - i,
    {
        out.push(items[i].event);
        i = i + 1;
    }
    proof {
        assert(out@ =~= events_of(items@));
    }
    out
}

/// Put a batch into the order in which it leaves the engine.
pub fn sort_batch(events: &Vec<DecoderEvent>, promoted: &Vec<DecoderEvent>) -> (out: Vec<
    DecoderEvent,
>)
    ensures
        out@ == batch_order(events@, promoted@),
{
    let mut items: Vec<Keyed> = Vec::new();
    let mut i: usize = 0;
    while i < events.len()
        invariant
            i <= events.len(),
            items.len() == i,
            forall|j: int|
                0 <= j < i ==> items@[j] == (Keyed {
                    key: batch_key(events@[j], promoted@),
                    event: events@[j],
                }),
        decreases events.len() - i,
    {
        let event = events[i];
        let key = SortKey {
            ts: effective_sort_ts(&event, promoted),
            track_id: event_track_id(&event),
            tier: event_kind_tier(&event),
        };
        items.push(Keyed { key, event });
        i = i + 1;
    }
    proof {
        assert(items@ =~= keyed_for_batch(events@, promoted@));
    }
    let sorted = sort_keyed(&items);
    take_events(&sorted)
}

/// Put events into the order of their own times and tracks.
pub fn sort_by_time(events: &Vec<DecoderEvent>) -> (out: Vec<DecoderEvent>)
    ensures
        out@ == time_order(events@),
{
    let mut items: Vec<Keyed> = Vec::new();
    let mut i: usize = 0;
    while i < events.len()
        invariant
            i <= events.len(),
            items.len() == i,
            forall|j: int|
                0 <= j < i ==> items@[j] == (Keyed {
                    key: time_key(events@[j]),
                    event: events@[j],
                }),
        decreases events.len() - i,
    {
        let event = events[i];
        let key = SortKey { ts: event_sample_ts(&event), track_id: event_track_id(&event), tier: 0 };
        items.push(Keyed { key, event });
        i = i + 1;
    }
    proof {
        assert(items@ =~= keyed_by_time(events@));
    }
    let sorted = sort_keyed(&items);
    take_events(&sorted)
}

/// An event whose place in a batch is its own time.
pub open spec fn has_own_time(e: DecoderEvent) -> bool {
    e is CharDecoded || e is WordBoundary || e is TrackMeta || e is TrackPromoted
}

/// Events with a time of their own leave a batch in the order of their times, whichever
/// track they belong to, and at equal times in the order of their tracks.
pub proof fn law_batch_is_chronological(
    events: Seq<DecoderEvent>,
    promoted: Seq<DecoderEvent>,
    i: int,
    j: int,
)
    requires
        0 <= i < j < batch_order(events, promoted).len(),
        has_own_time(batch_order(events, promoted)[i]),
        has_own_time(batch_order(events, promoted)[j]),
    ensures
        ({
            let a = batch_order(events, promoted)[i];
            let b = batch_order(events, promoted)[j];
            ||| spec_event_sample_ts(a) < spec_event_sample_ts(b)
            ||| spec_event_sample_ts(a) == spec_event_sample_ts(b) && spec_event_track_id(a)
                <= spec_event_track_id(b)
        }),
{
    let items = keyed_for_batch(events, promoted);
    let place = law_sorting_is_stable(items);
    let out = stable_sorted(items);
    assert(out[i] == items[place[i]] && out[j] == items[place[j]]);
}

/// A promotion leaves its batch before the speeds of the same track, and before everything
/// else of it that is not from an earlier time.
pub proof fn law_promotion_precedes_its_tracks_reports(
    events: Seq<DecoderEvent>,
    promoted: Seq<DecoderEvent>,
    at_promotion: int,
    at_report: int,
)
    requires
        0 <= at_promotion < batch_order(events, promoted).len(),
        0 <= at_report < batch_order(events, promoted).len(),
        ({
            let promotion = batch_order(events, promoted)[at_promotion];
            let report = batch_order(events, promoted)[at_report];
            &&& promotion is TrackPromoted
            &&& !(report is TrackPromoted)
            &&& report is SpeedUpdate || spec_event_sample_ts(promotion) <= spec_event_sample_ts(
                report,
            )
            &&& spec_event_track_id(promotion) == spec_event_track_id(report)
            &&& promotion_ts(promoted, spec_event_track_id(promotion)) == Some(
                spec_event_sample_ts(promotion),
            )
        }),
    ensures
        at_promotion < at_report,
{
    let items = keyed_for_batch(events, promoted);
    let place = law_sorting_is_stable(items);
    let out = stable_sorted(items);
    assert(out[at_promotion] == items[place[at_promotion]]);
    assert(out[at_report] == items[place[at_report]]);
    if at_report < at_promotion {
        assert(!out[at_report].key.before(out[at_promotion].key));
    }
}

/// `events` are the batch's reports followed by its closures.
pub open spec fn closures_at_the_end(events: Seq<DecoderEvent>, reports: int) -> bool {
    &&& 0 <= reports <= events.len()
    &&& forall|k: int| 0 <= k < events.len() ==> ((#[trigger] events[k] is TrackClosed) <==> k >= reports)
}

/// Nothing of a track leaves a batch behind the track's closure.
pub proof fn law_closure_ends_its_track(
    events: Seq<DecoderEvent>,
    promoted: Seq<DecoderEvent>,
    reports: int,
    i: int,
    j: int,
)
    requires
        closures_at_the_end(events, reports),
        0 <= i < j < events.len(),
        batch_order(events, promoted)[i] is TrackClosed,
        spec_event_track_id(batch_order(events, promoted)[i]) == spec_event_track_id(
            batch_order(events, promoted)[j],
        ),
    ensures
        batch_order(events, promoted)[j] is TrackClosed,
{
    let items = keyed_for_batch(events, promoted);
    let place = law_sorting_is_stable(items);
    let out = stable_sorted(items);
    assert(out[i] == items[place[i]] && out[j] == items[place[j]]);
    assert(events[place[i]] is TrackClosed);
    assert(place[i] < place[j]);
    assert(events[place[j]] is TrackClosed);
}

/// Nothing of a track leaves the final flush behind the track's closure.
pub proof fn law_final_closure_ends_its_track(
    events: Seq<DecoderEvent>,
    reports: int,
    i: int,
    j: int,
)
    requires
        closures_at_the_end(events, reports),
        0 <= i < j < events.len(),
        time_order(events)[i] is TrackClosed,
        spec_event_track_id(time_order(events)[i]) == spec_event_track_id(time_order(events)[j]),
    ensures
        time_order(events)[j] is TrackClosed,
{
    let items = keyed_by_time(events);
    let place = law_sorting_is_stable(items);
    let out = stable_sorted(items);
    assert(out[i] == items[place[i]] && out[j] == items[place[j]]);
    assert(events[place[i]] is TrackClosed);
    assert(place[i] < place[j]);
    assert(events[place[j]] is TrackClosed);
}

proof fn lemma_sorting_keeps_events(items: Seq<Keyed>)
    ensures
        events_of(stable_sorted(items)).to_multiset() == events_of(items).to_multiset(),
        stable_sorted(items).len() == items.len(),
    decreases items.len(),
{
    broadcast use vstd::seq_lib::group_to_multiset_ensures;

    if items.len() > 0 {
        let rest = items.drop_last();
        lemma_sorting_keeps_events(rest);
        let sorted = stable_sorted(rest);
        let last = items.last();
        law_sorting_is_stable(rest);
        assert forall|i: int, j: int| 0 <= i < j < sorted.len() implies !(#[trigger] sorted[j]).key.before(
            (#[trigger] sorted[i]).key,
        ) by {
            assert(sorted[i].key.before(sorted[j].key) || sorted[i].key == sorted[j].key);
        }
        lemma_insertion_point(sorted, last.key);
        let at = insertion_point(sorted, last.key);
        assert(events_of(stable_sorted(items)) =~= events_of(sorted).insert(at, last.event));
        vstd::seq_lib::to_multiset_insert(events_of(sorted), at, last.event);
        assert(events_of(items) =~= events_of(rest).push(last.event));
        vstd::seq_lib::to_multiset_build(events_of(rest), last.event);
    }
}

/// Every event of a batch leaves the engine exactly once.
pub proof fn law_batch_order_keeps_every_event(
    events: Seq<DecoderEvent>,
    promoted: Seq<DecoderEvent>,
)
    ensures
        batch_order(events, promoted).to_multiset() == events.to_multiset(),
        batch_order(events, promoted).len() == events.len(),
{
    lemma_sorting_keeps_events(keyed_for_batch(events, promoted));
    assert(events_of(keyed_for_batch(events, promoted)) =~= events);
}

/// Every event of the final flush leaves the engine exactly once.
pub proof fn law_time_order_keeps_every_event(events: Seq<DecoderEvent>)
    ensures
        time_order(events).to_multiset() == events.to_multiset(),
        time_order(events).len() == events.len(),
{
    lemma_sorting_keeps_events(keyed_by_time(events));
    assert(events_of(keyed_by_time(events)) =~= events);
}

/// The events of one track, in their order.
pub open spec fn of_track(events: Seq<DecoderEvent>, id: u32) -> Seq<DecoderEvent>
    decreases events.len(),
{
    if events.len() == 0 {
        events
    } else if spec_event_track_id(events.last()) == id {
        of_track(events.drop_last(), id).push(events.last())
    } else {
        of_track(events.drop_last(), id)
    }
}

/// The items with one key, in their order.
spec fn with_key(items: Seq<Keyed>, key: SortKey) -> Seq<Keyed>
    decreases items.len(),
{
    if items.len() == 0 {
        items
    } else if items.last().key == key {
        with_key(items.drop_last(), key).push(items.last())
    } else {
        with_key(items.drop_last(), key)
    }
}

spec fn is_sorted(items: Seq<Keyed>) -> bool {
    forall|i: int, j: int|
        0 <= i < j < items.len() ==> (#[trigger] items[i]).key.before((#[trigger] items[j]).key)
            || items[i].key == items[j].key
}

proof fn lemma_with_key_of_sum(a: Seq<Keyed>, b: Seq<Keyed>, key: SortKey)
    ensures
        with_key(a + b, key) == with_key(a, key) + with_key(b, key),
    decreases b.len(),
{
    if b.len() == 0 {
        assert(a + b =~= a);
        assert(with_key(a, key) + b =~= with_key(a, key));
    } else {
        assert((a + b).drop_last() =~= a + b.drop_last());
        lemma_with_key_of_sum(a, b.drop_last(), key);
        assert(with_key(a + b, key) =~= with_key(a, key) + with_key(b, key));
    }
}

proof fn lemma_no_such_key(items: Seq<Keyed>, key: SortKey)
    requires
        forall|i: int| 0 <= i < items.len() ==> (#[trigger] items[i]).key != key,
    ensures
        with_key(items, key).len() == 0,
    decreases items.len(),
{
    if items.len() > 0 {
        let rest = items.drop_last();
        assert forall|i: int| 0 <= i < rest.len() implies (#[trigger] rest[i]).key != key by {
            assert(rest[i] == items[i]);
        }
        lemma_no_such_key(rest, key);
    }
}

proof fn lemma_some_such_key(items: Seq<Keyed>, key: SortKey) -> (at: int)
    requires
        with_key(items, key).len() > 0,
    ensures
        0 <= at < items.len(),
        items[at].key == key,
    decreases items.len(),
{
    if items.last().key == key {
        items.len() - 1
    } else {
        lemma_some_such_key(items.drop_last(), key)
    }
}

proof fn lemma_sorting_keeps_classes(items: Seq<Keyed>, key: SortKey)
    ensures
        is_sorted(stable_sorted(items)),
        with_key(stable_sorted(items), key) == with_key(items, key),
    decreases items.len(),
{
    law_sorting_is_stable(items);
    if items.len() > 0 {
        let rest = items.drop_last();
        let last = items.last();
        lemma_sorting_keeps_classes(rest, key);
        let sorted = stable_sorted(rest);
        lemma_insertion_point(sorted, last.key);
        let at = insertion_point(sorted, last.key);
        let (low, high) = (sorted.subrange(0, at), sorted.subrange(at, sorted.len() as int));
        assert(sorted =~= low + high);
        assert(stable_sorted(items) =~= low.push(last) + high);
        lemma_with_key_of_sum(low, high, key);
        lemma_with_key_of_sum(low.push(last), high, key);
        assert(low.push(last).drop_last() =~= low);
        if last.key == key {
            assert forall|i: int| 0 <= i < high.len() implies (#[trigger] high[i]).key != key by {
                assert(high[i] == sorted[at + i]);
            }
            lemma_no_such_key(high, key);
            assert(with_key(low.push(last), key) + with_key(high, key) =~= with_key(low, key).push(
                last,
            ));
            assert(with_key(low, key) + with_key(high, key) =~= with_key(low, key));
        }
    }
}

proof fn lemma_classes_determine_order(a: Seq<Keyed>, b: Seq<Keyed>)
    requires
        is_sorted(a),
        is_sorted(b),
        forall|key: SortKey| #[trigger] with_key(a, key) == with_key(b, key),
    ensures
        a == b,
    decreases a.len(),
{
    if a.len() == 0 {
        if b.len() > 0 {
            assert(with_key(a, b.last().key) == with_key(b, b.last().key));
        }
        assert(a =~= b);
    } else {
        let (ka, kb) = (a.last().key, b.last().key);
        assert(with_key(a, ka) == with_key(b, ka));
        lemma_some_such_key(b, ka);
        assert(with_key(a, kb) == with_key(b, kb));
        lemma_some_such_key(a, kb);
        assert(ka == kb);
        assert(a.last() == with_key(a, ka).last());
        assert(b.last() == with_key(b, ka).last());
        let (ra, rb) = (a.drop_last(), b.drop_last());
        assert forall|key: SortKey| #[trigger] with_key(ra, key) == with_key(rb, key) by {
            assert(with_key(a, key) == with_key(b, key));
            if key == ka {
                assert(with_key(ra, key) =~= with_key(a, key).drop_last());
                assert(with_key(rb, key) =~= with_key(b, key).drop_last());
            }
        }
        lemma_classes_determine_order(ra, rb);
        assert(a =~= ra.push(a.last()));
        assert(b =~= rb.push(b.last()));
    }
}

proof fn lemma_class_lies_in_track(events: Seq<DecoderEvent>, key: SortKey)
    ensures
        with_key(keyed_by_time(events), key) == with_key(
            keyed_by_time(of_track(events, key.track_id)),
            key,
        ),
    decreases events.len(),
{
    if events.len() > 0 {
        let rest = events.drop_last();
        lemma_class_lies_in_track(rest, key);
        assert(keyed_by_time(events).drop_last() =~= keyed_by_time(rest));
        let own = of_track(events, key.track_id);
        if spec_event_track_id(events.last()) == key.track_id {
            assert(own.drop_last() =~= of_track(rest, key.track_id));
            assert(keyed_by_time(own).drop_last() =~= keyed_by_time(
                of_track(rest, key.track_id),
            ));
        }
    }
}

/// Decoders may run in any order: what leaves the engine depends only on what each track's
/// own decoder reported, not on how the reports of different tracks were interleaved.
pub proof fn law_decoders_may_run_in_any_order(a: Seq<DecoderEvent>, b: Seq<DecoderEvent>)
    requires
        forall|id: u32| #[trigger] of_track(a, id) == of_track(b, id),
    ensures
        time_order(a) == time_order(b),
{
    let (ka, kb) = (keyed_by_time(a), keyed_by_time(b));
    lemma_sorting_keeps_classes(ka, SortKey { ts: 0, track_id: 0, tier: 0 });
    lemma_sorting_keeps_classes(kb, SortKey { ts: 0, track_id: 0, tier: 0 });
    assert forall|key: SortKey| #[trigger] with_key(stable_sorted(ka), key) == with_key(
        stable_sorted(kb),
        key,
    ) by {
        lemma_sorting_keeps_classes(ka, key);
        lemma_sorting_keeps_classes(kb, key);
        lemma_class_lies_in_track(a, key);
        lemma_class_lies_in_track(b, key);
        assert(of_track(a, key.track_id) == of_track(b, key.track_id));
    }
    lemma_classes_determine_order(stable_sorted(ka), stable_sorted(kb));
}

/// The events of one track are all that belong to it, in the order in which they came.
pub proof fn law_the_events_of_a_track_keep_their_order(events: Seq<DecoderEvent>, id: u32)
    ensures
        of_track(events, id) == events.filter(|e: DecoderEvent| spec_event_track_id(e) == id),
    decreases events.len(),
{
    reveal(Seq::filter);
    if events.len() > 0 {
        law_the_events_of_a_track_keep_their_order(events.drop_last(), id);
    }
}

/// The time that an event carries, if it carries one.
pub open spec fn stamp(e: DecoderEvent) -> Option<u64> {
    match e {
        DecoderEvent::CharDecoded { sample_ts, .. } => Some(sample_ts),
        DecoderEvent::WordBoundary { sample_ts, .. } => Some(sample_ts),
        DecoderEvent::TrackMeta { sample_ts, .. } => Some(sample_ts),
        DecoderEvent::TrackPromoted { sample_ts, .. } => Some(sample_ts),
        DecoderEvent::SpeedUpdate { .. } => None,
        DecoderEvent::TrackClosed { .. } => None,
    }
}

/// The track that an event names.
pub open spec fn names(e: DecoderEvent, id: u32) -> bool {
    match e {
        DecoderEvent::CharDecoded { track_id, .. } => track_id == id,
        DecoderEvent::WordBoundary { track_id, .. } => track_id == id,
        DecoderEvent::SpeedUpdate { track_id, .. } => track_id == id,
        DecoderEvent::TrackMeta { track_id, .. } => track_id == id,
        DecoderEvent::TrackPromoted { track_id, .. } => track_id == id,
        DecoderEvent::TrackClosed { track_id, .. } => track_id == id,
    }
}

/// An event belongs to the track that it names, and counts by the time that it carries; a
/// speed, which carries none, before all that do, and a closure behind them.
pub proof fn law_events_count_by_what_they_carry(e: DecoderEvent, other: DecoderEvent, id: u32)
    ensures
        names(e, id) <==> spec_event_track_id(e) == id,
        stamp(e) matches Some(ts) ==> spec_event_sample_ts(e) == ts,
        e is SpeedUpdate ==> spec_event_sample_ts(e) <= spec_event_sample_ts(other),
        e is TrackClosed ==> spec_event_sample_ts(other) <= spec_event_sample_ts(e),
{
}

/// What leaves a batch is in the order of the times that the events carry, and at equal times
/// in that of the tracks that they name, a confirmation before all else of its track; closures
/// come behind all else that carries a time, unless that is the last time there is.
pub proof fn law_a_batch_leaves_in_order(
    events: Seq<DecoderEvent>,
    promoted: Seq<DecoderEvent>,
    i: int,
    j: int,
    ida: u32,
    idb: u32,
)
    requires
        0 <= i < j < events.len(),
        names(batch_order(events, promoted)[i], ida),
        names(batch_order(events, promoted)[j], idb),
    ensures
        ({
            let (a, b) = (batch_order(events, promoted)[i], batch_order(events, promoted)[j]);
            &&& stamp(a) is Some && stamp(b) is Some ==> stamp(a)->0 < stamp(b)->0 || stamp(a)
                == stamp(b) && ida <= idb
            &&& stamp(a) is Some && stamp(a) == stamp(b) && ida == idb && b is TrackPromoted
                ==> a is TrackPromoted
            &&& a is TrackClosed && stamp(b) is Some ==> stamp(b) == Some(u64::MAX)
            &&& a is TrackClosed && b is TrackClosed ==> ida <= idb
        }),
{
    let items = keyed_for_batch(events, promoted);
    let place = law_sorting_is_stable(items);
    let out = stable_sorted(items);
    assert(out[i] == items[place[i]] && out[j] == items[place[j]]);
    assert(out[i].key.before(out[j].key) || out[i].key == out[j].key);
}

proof fn lemma_promotion_ts(promoted: Seq<DecoderEvent>, id: u32, ts: u64)
    requires
        forall|k: int|
            0 <= k < promoted.len() && names(#[trigger] promoted[k], id) ==> stamp(promoted[k])
                == Some(ts),
    ensures
        promotion_ts(promoted, id) == (if exists|k: int|
            0 <= k < promoted.len() && names(#[trigger] promoted[k], id) {
            Some(ts)
        } else {
            None
        }),
    decreases promoted.len(),
{
    if promoted.len() > 0 {
        let rest = promoted.drop_last();
        assert forall|k: int| 0 <= k < rest.len() && names(#[trigger] rest[k], id) implies stamp(
            rest[k],
        ) == Some(ts) by {
            assert(rest[k] == promoted[k]);
        }
        lemma_promotion_ts(rest, id, ts);
        let last = promoted[promoted.len() - 1];
        if names(last, id) {
        } else if exists|k: int| 0 <= k < promoted.len() && names(#[trigger] promoted[k], id) {
            let k = choose|k: int| 0 <= k < promoted.len() && names(#[trigger] promoted[k], id);
            assert(rest[k] == promoted[k]);
        } else if exists|k: int| 0 <= k < rest.len() && names(#[trigger] rest[k], id) {
            let k = choose|k: int| 0 <= k < rest.len() && names(#[trigger] rest[k], id);
            assert(rest[k] == promoted[k]);
        }
    }
}

/// A speed carries no time and takes none from others: it leaves its batch before all that is
/// later than the beginning, or, where its own track was confirmed in the batch, before all
/// that is later than that and behind all that is earlier.
pub proof fn law_speeds_go_with_their_track(
    events: Seq<DecoderEvent>,
    promoted: Seq<DecoderEvent>,
    at: int,
    other: int,
    id: u32,
    ts: u64,
)
    requires
        0 <= at < events.len(),
        0 <= other < events.len(),
        batch_order(events, promoted)[at] is SpeedUpdate,
        names(batch_order(events, promoted)[at], id),
        stamp(batch_order(events, promoted)[other]) is Some,
        forall|k: int|
            0 <= k < promoted.len() && names(#[trigger] promoted[k], id) ==> stamp(promoted[k])
                == Some(ts),
    ensures
        ({
            let time = stamp(batch_order(events, promoted)[other])->0;
            let confirmed = exists|k: int|
                0 <= k < promoted.len() && names(#[trigger] promoted[k], id);
            let place = if confirmed {
                ts
            } else {
                0
            };
            &&& time > place ==> at < other
            &&& time < place ==> other < at
        }),
{
    lemma_promotion_ts(promoted, id, ts);
    let items = keyed_for_batch(events, promoted);
    let place = law_sorting_is_stable(items);
    let out = stable_sorted(items);
    assert(out[at] == items[place[at]] && out[other] == items[place[other]]);
    if at < other {
        assert(out[at].key.before(out[other].key) || out[at].key == out[other].key);
    } else if other < at {
        assert(out[other].key.before(out[at].key) || out[other].key == out[at].key);
    }
}

/// What leaves at the end of the stream is in the order of times, and at equal times in that
/// of the tracks.
pub proof fn law_the_end_leaves_in_order(events: Seq<DecoderEvent>, i: int, j: int)
    requires
        0 <= i < j < events.len(),
    ensures
        ({
            let (a, b) = (time_order(events)[i], time_order(events)[j]);
            &&& spec_event_sample_ts(a) < spec_event_sample_ts(b) || spec_event_sample_ts(a)
                == spec_event_sample_ts(b) && spec_event_track_id(a) <= spec_event_track_id(b)
            &&& stamp(a) is Some && stamp(b) is Some ==> stamp(a)->0 <= stamp(b)->0
        }),
{
    let items = keyed_by_time(events);
    let place = law_sorting_is_stable(items);
    let out = stable_sorted(items);
    assert(out[i] == items[place[i]] && out[j] == items[place[j]]);
    assert(out[i].key.before(out[j].key) || out[i].key == out[j].key);
}

} // verus!
