//! The signal-to-noise ratio that a track reports: the highest since the last report.

use crate::level::Level;
use vstd::prelude::*;

verus! {

/// The higher of what was held and what is new.
pub open spec fn raised(held: Option<Level>, snr: Level) -> Level {
    match held {
        Some(peak) => if peak.code >= snr.code {
            peak
        } else {
            snr
        },
        None => snr,
    }
}

/// The decoder reports after its `hop_count`-th hop.
pub open spec fn at_boundary(hop_count: nat, interval: nat) -> bool {
    hop_count % interval == 0
}

/// What is held after a hop.
pub open spec fn held_after(
    held: Option<Level>,
    snr: Level,
    hop_count: nat,
    interval: nat,
) -> Option<Level> {
    if at_boundary(hop_count, interval) {
        None
    } else {
        Some(raised(held, snr))
    }
}

/// What is held after a run of hops, the first of which is hop number `first`.
pub open spec fn held_after_all(
    held: Option<Level>,
    snrs: Seq<Level>,
    first: nat,
    interval: nat,
) -> Option<Level>
    decreases snrs.len(),
{
    if snrs.len() == 0 {
        held
    } else {
        held_after(
            held_after_all(held, snrs.drop_last(), first, interval),
            snrs.last(),
            (first + snrs.len() - 1) as nat,
            interval,
        )
    }
}

/// What the decoder is told on each hop of a run.
pub open spec fn told(held: Option<Level>, snrs: Seq<Level>, first: nat, interval: nat) -> Seq<
    Level,
> {
    Seq::new(
        snrs.len(),
        |i: int| raised(held_after_all(held, snrs.take(i), first, interval), snrs[i]),
    )
}

/// Holds the highest level since the last report.
#[derive(Debug, Clone, Copy)]
pub struct PeakHold {
    peak: Option<Level>,
}

impl View for PeakHold {
    type V = Option<Level>;

    closed spec fn view(&self) -> Option<Level> {
        self.peak
    }
}

impl PeakHold {
    /// Nothing held yet, so that the first level counts however low it is.
    pub fn new() -> (p: Self)
        ensures
            p@ is None,
    {
        PeakHold { peak: None }
    }

    /// Take a level in, and give the highest since the last report.
    pub fn observe(&mut self, snr: Level) -> (peak: Level)
        ensures
            peak == raised(old(self)@, snr),
            final(self)@ == Some(peak),
    {
        let peak = match self.peak {
            Some(held) => held.max(snr),
            None => snr,
        };
        self.peak = Some(peak);
        peak
    }

    /// The decoder has taken its `hop_count`-th hop; start over if it reports there.
    pub fn note_push(&mut self, hop_count: u64, interval: u64)
        requires
            interval > 0,
        ensures
            final(self)@ == (if at_boundary(hop_count as nat, interval as nat) {
                None
            } else {
                old(self)@
            }),
    {
        if hop_count % interval == 0 {
            self.peak = None;
        }
    }
}

proof fn lemma_held_after_sum(
    held: Option<Level>,
    a: Seq<Level>,
    b: Seq<Level>,
    first: nat,
    interval: nat,
)
    ensures
        held_after_all(held, a + b, first, interval) == held_after_all(
            held_after_all(held, a, first, interval),
            b,
            first + a.len(),
            interval,
        ),
    decreases b.len(),
{
    if b.len() == 0 {
        assert(a + b =~= a);
    } else {
        assert((a + b).drop_last() =~= a + b.drop_last());
        lemma_held_after_sum(held, a, b.drop_last(), first, interval);
    }
}

/// What a decoder is told does not depend on how its hops were split into batches.
pub proof fn law_peaks_do_not_depend_on_batches(
    held: Option<Level>,
    a: Seq<Level>,
    b: Seq<Level>,
    first: nat,
    interval: nat,
)
    ensures
        told(held, a + b, first, interval) == told(held, a, first, interval) + told(
            held_after_all(held, a, first, interval),
            b,
            first + a.len(),
            interval,
        ),
{
    let left = told(held, a + b, first, interval);
    let right = told(held, a, first, interval) + told(
        held_after_all(held, a, first, interval),
        b,
        first + a.len(),
        interval,
    );
    assert forall|i: int| 0 <= i < left.len() implies left[i] == right[i] by {
        if i < a.len() {
            assert((a + b).take(i) =~= a.take(i));
        } else {
            assert((a + b).take(i) =~= a + b.take(i - a.len()));
            lemma_held_after_sum(held, a, b.take(i - a.len()), first, interval);
        }
    }
    assert(left =~= right);
}

/// Between two reports the decoder is told the highest level since the first of them.
pub proof fn law_told_the_highest_since_the_last_report(
    held: Option<Level>,
    snrs: Seq<Level>,
    first: nat,
    interval: nat,
    since: int,
    at: int,
)
    requires
        0 <= since <= at < snrs.len(),
        held_after_all(held, snrs.take(since), first, interval) is None,
        forall|i: int| since <= i < at ==> !#[trigger] at_boundary((first + i) as nat, interval),
    ensures
        forall|i: int|
            since <= i <= at ==> (#[trigger] snrs[i]).code <= told(held, snrs, first, interval)[at].code,
        exists|i: int| since <= i <= at && told(held, snrs, first, interval)[at] == #[trigger] snrs[i],
    decreases at - since,
{
    if at > since {
        law_told_the_highest_since_the_last_report(held, snrs, first, interval, since, at - 1);
        assert(snrs.take(at).drop_last() =~= snrs.take(at - 1));
        assert(!at_boundary((first + (at - 1)) as nat, interval));
        let before = told(held, snrs, first, interval)[at - 1];
        assert(held_after_all(held, snrs.take(at), first, interval) == Some(before));
        let w = choose|i: int| since <= i <= at - 1 && before == #[trigger] snrs[i];
        assert(snrs[w] == before);
        assert(snrs[at].code <= told(held, snrs, first, interval)[at].code);
    } else {
        assert(told(held, snrs, first, interval)[at] == snrs[at]);
    }
}

/// A decoder is told the highest level since it last reported: after a hop whose number is a
/// multiple of the interval nothing is held, and up to the next such hop it is told the
/// highest of all levels from there on, this hop's included.
pub proof fn law_peaks_run_from_report_to_report(
    held: Option<Level>,
    snrs: Seq<Level>,
    first: nat,
    interval: nat,
    since: int,
    at: int,
)
    requires
        interval > 0,
        0 <= since <= at < snrs.len(),
        since == 0 && held is None || since > 0 && (first + since - 1) % (interval as int) == 0,
        forall|i: int| since <= i < at ==> #[trigger] ((first + i) % (interval as int)) != 0,
    ensures
        ({
            let peak = told(held, snrs, first, interval)[at];
            &&& forall|i: int| since <= i <= at ==> (#[trigger] snrs[i]).code <= peak.code
            &&& exists|i: int| since <= i <= at && peak == #[trigger] snrs[i]
        }),
{
    if since > 0 {
        assert(snrs.take(since).drop_last() =~= snrs.take(since - 1));
        assert(at_boundary((first + since - 1) as nat, interval));
    } else {
        assert(snrs.take(0) =~= Seq::<Level>::empty());
    }
    assert forall|i: int| since <= i < at implies !#[trigger] at_boundary(
        (first + i) as nat,
        interval,
    ) by {
        assert((first + i) % (interval as int) != 0);
    }
    law_told_the_highest_since_the_last_report(held, snrs, first, interval, since, at);
}

} // verus!
