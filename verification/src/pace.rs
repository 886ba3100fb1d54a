//! Playing a recording back no faster than it was made.
//!
//! The wait after a read is reckoned from all samples handed out since the first read, so a
//! read that comes late is made up for by the next ones, and errors do not add up.

use crate::dyadic::Dyadic;
use vstd::prelude::*;

verus! {

/// The rate lets a number of samples be timed.
pub open spec fn timeable(delivered: int, fs: Dyadic) -> bool {
    match fs {
        Dyadic::NotANumber => false,
        Dyadic::Infinite { .. } => true,
        Dyadic::Finite { .. } => {
            &&& fs.above_zero() || (fs.below_zero() && delivered == 0)
            &&& due_ns(delivered, fs) <= u64::MAX
        },
    }
}

/// When that many samples are due, in nanoseconds from the start of the recording.
pub open spec fn due_ns(delivered: int, fs: Dyadic) -> int {
    if delivered == 0 || fs is Infinite {
        0
    } else {
        crate::dyadic::nearest(
            (delivered * 1_000_000_000) * fs.den() as int,
            fs.num() as int,
        )
    }
}

/// How long to wait before a read may return that brings the samples handed out to
/// `delivered`, `elapsed` nanoseconds after the start. `None` is not to wait.
pub fn pacing_delay(delivered: u64, fs: Dyadic, elapsed: u64) -> (delay: Option<u64>)
    requires
        timeable(delivered as int, fs),
    ensures
        delay == (if due_ns(delivered as int, fs) > elapsed {
            Some((due_ns(delivered as int, fs) - elapsed) as u64)
        } else {
            None
        }),
{
    if delivered == 0 {
        return None;
    }
    let due: u64 = match fs {
        Dyadic::Finite { .. } => match fs.divide(delivered as u128 * 1_000_000_000) {
            Some(ns) => ns,
            None => 0,
        },
        _ => 0,
    };
    if due > elapsed {
        Some(due - elapsed)
    } else {
        None
    }
}

/// Paces the reads of a recording.
pub struct PacedSource {
    fs: Dyadic,
    delivered: u64,
    start: Option<u64>,
}

/// What a pacer knows.
pub ghost struct PaceModel {
    pub fs: Dyadic,
    pub delivered: int,
    /// When the first read began.
    pub start: Option<int>,
}

impl PaceModel {
    /// Time since the first read began.
    pub open spec fn elapsed(self, now: int) -> int {
        match self.start {
            Some(start) => if now > start {
                now - start
            } else {
                0
            },
            None => 0,
        }
    }

    /// After a read began.
    pub open spec fn begun(self, now: int) -> PaceModel {
        match self.start {
            Some(_) => self,
            None => PaceModel { start: Some(now), ..self },
        }
    }

    /// After a read gave `n` samples.
    pub open spec fn given(self, n: int) -> PaceModel {
        PaceModel { delivered: self.delivered + n, ..self }
    }
}

impl PacedSource {
    /// What the pacer knows.
    pub closed spec fn view(&self) -> PaceModel {
        PaceModel {
            fs: self.fs,
            delivered: self.delivered as int,
            start: match self.start {
                Some(t) => Some(t as int),
                None => None,
            },
        }
    }

    /// A pacer for a rate. Its clock does not run yet.
    pub fn new(fs: Dyadic) -> (p: PacedSource)
        ensures
            p@ == (PaceModel { fs, delivered: 0, start: None }),
    {
        PacedSource { fs, delivered: 0, start: None }
    }

    /// A read begins at `now`; the first starts the clock.
    pub fn begin_read(&mut self, now: u64)
        ensures
            final(self)@ == old(self)@.begun(now as int),
    {
        if self.start.is_none() {
            self.start = Some(now);
        }
    }

    /// A read gave `n` samples at `now`: how long to wait before it may return.
    pub fn end_read(&mut self, n: usize, now: u64) -> (delay: Option<u64>)
        requires
            old(self)@.delivered + n <= u64::MAX,
            timeable(old(self)@.delivered + n, old(self)@.fs),
        ensures
            final(self)@ == old(self)@.given(n as int),
            ({
                let due = due_ns(final(self)@.delivered, final(self)@.fs);
                let elapsed = final(self)@.elapsed(now as int);
                delay == (if due > elapsed {
                    Some((due - elapsed) as u64)
                } else {
                    None
                })
            }),
    {
        self.delivered = self.delivered + n as u64;
        let elapsed: u64 = match self.start {
            Some(start) => if now > start {
                now - start
            } else {
                0
            },
            None => 0,
        };
        pacing_delay(self.delivered, self.fs, elapsed)
    }
}

/// Samples that come later are not due earlier.
pub proof fn law_due_times_do_not_go_back(few: int, many: int, fs: Dyadic)
    requires
        0 <= few <= many,
        fs.above_zero(),
    ensures
        0 <= due_ns(few, fs) <= due_ns(many, fs),
{
    crate::dyadic::lemma_fraction_is_proper(fs);
    let (num, den) = (fs.num() as int, fs.den() as int);
    let (a, b) = ((few * 1_000_000_000) * den, (many * 1_000_000_000) * den);
    assert(0 <= a <= b) by (nonlinear_arith)
        requires
            a == (few * 1_000_000_000) * den,
            b == (many * 1_000_000_000) * den,
            0 <= few <= many,
            den > 0,
    ;
    vstd::arithmetic::div_mod::lemma_div_pos_is_pos(2 * a + num, 2 * num);
    vstd::arithmetic::div_mod::lemma_div_pos_is_pos(2 * b + num, 2 * num);
    vstd::arithmetic::div_mod::lemma_div_is_ordered(2 * a + num, 2 * b + num, 2 * num);
}

/// A read that waits returns exactly when its last sample is due, and one that does not wait
/// is due already: no read returns early, and none is held back longer than that.
pub proof fn law_reads_return_when_due(m: PaceModel, n: int, now: int)
    requires
        m.start is Some,
        m.start->0 <= now,
        0 <= n,
    ensures
        ({
            let due = due_ns(m.delivered + n, m.fs);
            let elapsed = m.elapsed(now);
            let wait = if due > elapsed {
                due - elapsed
            } else {
                0
            };
            let back = now + wait;
            &&& back - m.start->0 >= due
            &&& wait > 0 ==> back - m.start->0 == due
            &&& elapsed >= due ==> wait == 0
        }),
{
}

/// Only the sum of what was handed out counts, not in how many reads.
pub proof fn law_pace_does_not_depend_on_read_sizes(m: PaceModel, a: int, b: int)
    ensures
        m.given(a).given(b) == m.given(a + b),
{
}

/// Samples are due when a recording of their rate has come so far, to the nearest nanosecond.
pub proof fn law_samples_are_due_at_their_rate(delivered: int, fs: Dyadic)
    requires
        delivered >= 0,
        fs.above_zero(),
    ensures
        -(fs.num() as int) <= 2 * ((delivered * 1_000_000_000) * fs.den() - due_ns(delivered, fs)
            * fs.num()) < fs.num(),
        due_ns(0, fs) == 0,
{
    crate::dyadic::lemma_fraction_is_proper(fs);
    if delivered == 0 {
        assert(0 * fs.den() == 0);
        assert(0 * fs.num() == 0);
    } else {
        crate::dyadic::law_nearest_is_within_a_half(
            (delivered * 1_000_000_000) * fs.den() as int,
            fs.num() as int,
        );
    }
}

/// The clock starts with the first read and is not started again; reads that give samples do
/// not change it.
pub proof fn law_the_clock_starts_once(m: PaceModel, first: int, later: int, n: int)
    requires
        m.start is None,
        first <= later,
    ensures
        m.begun(first).start == Some(first),
        m.begun(first).begun(later) == m.begun(first),
        m.begun(first).given(n).start == Some(first),
        m.begun(first).given(n).delivered == m.delivered + n,
        m.begun(first).given(n).elapsed(later) == later - first,
{
}

} // verus!
