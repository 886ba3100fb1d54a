//! Soak runs: drive the pipeline for a fixed time and see that it neither panics nor grows.
//!
//! Times are in nanoseconds since the start of the run, memory in bytes.

use vstd::prelude::*;

verus! {

/// Growth of the peak resident set beyond this fails a soak.
pub const RSS_GROWTH_LIMIT_BYTES: u64 = 209_715_200;

/// Memory counts only after this long.
pub const WARMUP_NS: u64 = 10_000_000_000;

/// How often the watchdog of a plain soak wakes.
pub const WATCHDOG_POLL_NS: u64 = 100_000_000;

/// The shortest sleep of a watchdog.
pub const SHORTEST_SLEEP_NS: u64 = 1_000_000;

/// The result of a soak.
#[derive(Debug, Clone, Copy, PartialEq, Eq, Structural)]
pub struct SoakReport {
    pub events_emitted: usize,
    pub rss_growth_bytes: u64,
    pub panicked: bool,
    /// How long the pipeline really ran, which is less than was asked for when the source
    /// ends early.
    pub ran_for_ns: u64,
}

/// How the pipeline came back.
#[derive(Debug, Clone, Copy, PartialEq, Eq, Structural)]
pub enum RunEnd {
    Returned,
    /// It returned an error, which is no panic.
    Failed,
    Panicked,
}

/// The run passed: no panic, and bounded growth.
pub fn soak_passed(report: &SoakReport) -> (passed: bool)
    ensures
        passed == (!report.panicked && report.rss_growth_bytes < RSS_GROWTH_LIMIT_BYTES),
{
    !report.panicked && report.rss_growth_bytes < RSS_GROWTH_LIMIT_BYTES
}

/// The larger of two growths.
pub open spec fn grown(worst: nat, baseline: nat, rss: nat) -> nat {
    if rss > baseline && rss - baseline > worst {
        (rss - baseline) as nat
    } else {
        worst
    }
}

pub open spec fn spec_counts_memory(elapsed_ns: nat) -> bool {
    elapsed_ns >= WARMUP_NS
}

/// Memory counts from here on.
pub fn counts_memory(elapsed_ns: u64) -> (yes: bool)
    ensures
        yes == spec_counts_memory(elapsed_ns as nat),
{
    elapsed_ns >= WARMUP_NS
}

/// Watches the growth of the peak resident set.
#[derive(Debug, Clone, Copy, PartialEq, Eq, Structural)]
pub struct GrowthWatch {
    /// What it was at the start.
    pub baseline: u64,
    /// The worst growth that counted.
    pub worst: u64,
}

impl GrowthWatch {
    pub fn new(baseline: u64) -> (w: Self)
        ensures
            w == (GrowthWatch { baseline, worst: 0 }),
    {
        GrowthWatch { baseline, worst: 0 }
    }

    /// Take a reading. Readings during the warm-up do not count.
    pub fn note(&mut self, elapsed_ns: u64, rss: u64)
        ensures
            final(self).baseline == old(self).baseline,
            final(self).worst == (if spec_counts_memory(elapsed_ns as nat) {
                grown(old(self).worst as nat, old(self).baseline as nat, rss as nat)
            } else {
                old(self).worst as nat
            }),
    {
        if counts_memory(elapsed_ns) && rss > self.baseline && rss - self.baseline > self.worst {
            self.worst = rss - self.baseline;
        }
    }
}

/// A plain soak in progress.
#[derive(Debug, Clone, Copy, PartialEq, Eq, Structural)]
pub struct SoakMonitor {
    pub growth: GrowthWatch,
    pub events: usize,
}

impl SoakMonitor {
    pub fn new(baseline: u64) -> (m: Self)
        ensures
            m == (SoakMonitor { growth: GrowthWatch { baseline, worst: 0 }, events: 0 }),
    {
        SoakMonitor { growth: GrowthWatch::new(baseline), events: 0 }
    }

    /// An event came; `rss` is read at that time, and counts only after the warm-up.
    pub fn on_event(&mut self, elapsed_ns: u64, rss: u64)
        requires
            old(self).events < usize::MAX,
        ensures
            final(self).events == old(self).events + 1,
            final(self).growth.baseline == old(self).growth.baseline,
            final(self).growth.worst == (if spec_counts_memory(elapsed_ns as nat) {
                grown(
                    old(self).growth.worst as nat,
                    old(self).growth.baseline as nat,
                    rss as nat,
                )
            } else {
                old(self).growth.worst as nat
            }),
    {
        self.events = self.events + 1;
        self.growth.note(elapsed_ns, rss);
    }

    /// The report, or nothing where the pipeline failed without panicking.
    pub fn report(&self, end: RunEnd, ran_for_ns: u64) -> (report: Option<SoakReport>)
        ensures
            report == (if end == RunEnd::Failed {
                None
            } else {
                Some(
                    SoakReport {
                        events_emitted: self.events,
                        rss_growth_bytes: self.growth.worst,
                        panicked: end == RunEnd::Panicked,
                        ran_for_ns,
                    },
                )
            }),
    {
        match end {
            RunEnd::Failed => None,
            RunEnd::Returned => Some(
                SoakReport {
                    events_emitted: self.events,
                    rss_growth_bytes: self.growth.worst,
                    panicked: false,
                    ran_for_ns,
                },
            ),
            RunEnd::Panicked => Some(
                SoakReport {
                    events_emitted: self.events,
                    rss_growth_bytes: self.growth.worst,
                    panicked: true,
                    ran_for_ns,
                },
            ),
        }
    }
}

/// How long a watchdog sleeps next: `poll`, or what is left of the run, but never less than
/// the shortest sleep. `None` once the time is up or the pipeline is done.
pub open spec fn spec_watchdog_sleep(
    elapsed_ns: nat,
    duration_ns: nat,
    poll_ns: nat,
    done: bool,
) -> Option<nat> {
    if elapsed_ns >= duration_ns || done {
        None
    } else {
        let left = if duration_ns - elapsed_ns > SHORTEST_SLEEP_NS {
            (duration_ns - elapsed_ns) as nat
        } else {
            SHORTEST_SLEEP_NS as nat
        };
        Some(
            if poll_ns < left {
                poll_ns
            } else {
                left
            },
        )
    }
}

/// How long a watchdog sleeps next; `None` where it tells the pipeline to stop.
pub fn watchdog_sleep(elapsed_ns: u64, duration_ns: u64, poll_ns: u64, done: bool) -> (sleep:
    Option<u64>)
    ensures
        match sleep {
            Some(ns) => spec_watchdog_sleep(
                elapsed_ns as nat,
                duration_ns as nat,
                poll_ns as nat,
                done,
            ) == Some(ns as nat),
            None => spec_watchdog_sleep(
                elapsed_ns as nat,
                duration_ns as nat,
                poll_ns as nat,
                done,
            ) is None,
        },
{
    if elapsed_ns >= duration_ns || done {
        return None;
    }
    let mut left: u64 = duration_ns - elapsed_ns;
    if left < SHORTEST_SLEEP_NS {
        left = SHORTEST_SLEEP_NS;
    }
    if poll_ns < left {
        Some(poll_ns)
    } else {
        Some(left)
    }
}

/// A watchdog never sleeps past the end of the run by more than the shortest sleep, and
/// never longer than its poll interval.
pub proof fn law_the_watchdog_wakes_in_time(
    elapsed_ns: nat,
    duration_ns: nat,
    poll_ns: nat,
    done: bool,
)
    requires
        spec_watchdog_sleep(elapsed_ns, duration_ns, poll_ns, done) is Some,
    ensures
        ({
            let sleep = spec_watchdog_sleep(elapsed_ns, duration_ns, poll_ns, done)->0;
            &&& sleep <= poll_ns
            &&& elapsed_ns + sleep <= duration_ns || sleep <= SHORTEST_SLEEP_NS
        }),
{
}

/// Peak resident bytes, from the system's own figure, which some systems give in bytes and
/// others in units of 1024.
pub fn rss_bytes(raw: u64, in_bytes: bool) -> (bytes: u64)
    requires
        in_bytes || raw <= u64::MAX / 1024,
    ensures
        bytes == (if in_bytes { raw as int } else { raw * 1024 }),
{
    if in_bytes {
        raw
    } else {
        raw * 1024
    }
}

/// Memory counts from ten seconds on. The worst growth is the largest that was read, above what
/// it was at the start: a reading that counts and grows beyond it becomes it, and no other
/// changes it.
pub proof fn law_the_worst_growth_is_the_largest_read(worst: nat, baseline: nat, rss: nat)
    ensures
        grown(worst, baseline, rss) >= worst,
        baseline + grown(worst, baseline, rss) >= rss,
        grown(worst, baseline, rss) == worst || baseline + grown(worst, baseline, rss) == rss,
        forall|elapsed_ns: nat|
            #[trigger] spec_counts_memory(elapsed_ns) <==> elapsed_ns >= 10_000_000_000,
{
}

/// A watchdog stops when the time is up or the pipeline is done, and not before; until then it
/// sleeps for its poll interval, or for what is left where that is less, and always for a
/// millisecond where its interval allows it.
pub proof fn law_the_watchdog_stops_on_time(
    elapsed_ns: nat,
    duration_ns: nat,
    poll_ns: nat,
    done: bool,
)
    ensures
        ({
            let sleep = spec_watchdog_sleep(elapsed_ns, duration_ns, poll_ns, done);
            &&& sleep is None <==> elapsed_ns >= duration_ns || done
            &&& sleep is Some ==> sleep->0 == poll_ns || sleep->0 < poll_ns && (elapsed_ns
                + sleep->0 == duration_ns || elapsed_ns + 1_000_000 >= duration_ns && sleep->0
                == 1_000_000)
            &&& sleep is Some && poll_ns >= 1_000_000 ==> sleep->0 >= 1_000_000
        }),
{
}

} // verus!
