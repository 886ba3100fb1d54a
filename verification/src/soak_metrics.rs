//! Soak runs that also sample the track manager at a fixed interval.

use crate::lifecycle::CloseCounts;
use crate::soak::{grown, spec_counts_memory, GrowthWatch, RunEnd, RSS_GROWTH_LIMIT_BYTES};
use vstd::prelude::*;

verus! {

/// How often the watchdog of a soak with metrics wakes.
pub const METRICS_POLL_NS: u64 = 1_000_000_000;

/// One periodic observation.
#[derive(Debug, Clone, Copy, PartialEq, Eq, Structural)]
pub struct SoakMetricsSample {
    pub elapsed_ns: u64,
    pub rss_bytes: u64,
    pub events_emitted: usize,
    pub spots_emitted: usize,
    pub active_tracks: usize,
    pub close_counts: CloseCounts,
}

/// The result of a soak with metrics.
#[derive(Debug, Clone, Copy, PartialEq, Eq, Structural)]
pub struct SoakMetricsReport {
    pub duration_actual_ns: u64,
    pub events_emitted: usize,
    pub spots_emitted: usize,
    pub rss_growth_bytes: u64,
    pub panicked: bool,
    pub peak_active_tracks: usize,
    pub final_close_counts: CloseCounts,
}

/// The run passed: no panic, and bounded growth.
pub fn soak_metrics_passed(report: &SoakMetricsReport) -> (passed: bool)
    ensures
        passed == (!report.panicked && report.rss_growth_bytes < RSS_GROWTH_LIMIT_BYTES),
{
    !report.panicked && report.rss_growth_bytes < RSS_GROWTH_LIMIT_BYTES
}

/// A soak with metrics in progress.
#[derive(Debug, Clone, Copy, PartialEq, Eq, Structural)]
pub struct MetricsMonitor {
    pub growth: GrowthWatch,
    pub events: usize,
    pub spots: usize,
    pub peak_active_tracks: usize,
    pub close_counts: CloseCounts,
    /// When the last sample was taken.
    pub last_sample_ns: u64,
}

pub open spec fn larger(a: usize, b: usize) -> usize {
    if a >= b {
        a
    } else {
        b
    }
}

/// The worst growth after a reading.
pub open spec fn worst_after(growth: GrowthWatch, elapsed_ns: u64, rss: u64) -> nat {
    if spec_counts_memory(elapsed_ns as nat) {
        grown(growth.worst as nat, growth.baseline as nat, rss as nat)
    } else {
        growth.worst as nat
    }
}

impl MetricsMonitor {
    pub fn new(baseline: u64) -> (m: Self)
        ensures
            m.growth == (GrowthWatch { baseline, worst: 0 }),
            m.events == 0,
            m.spots == 0,
            m.peak_active_tracks == 0,
            m.close_counts.total() == 0,
            m.last_sample_ns == 0,
    {
        MetricsMonitor {
            growth: GrowthWatch::new(baseline),
            events: 0,
            spots: 0,
            peak_active_tracks: 0,
            close_counts: CloseCounts {
                unconfirmed: 0,
                hang_expired: 0,
                silent: 0,
                merged: 0,
                evicted: 0,
            },
            last_sample_ns: 0,
        }
    }

    /// An event came, and gave rise to `spots` spots.
    pub fn on_event(&mut self, spots: usize)
        requires
            old(self).events < usize::MAX,
            old(self).spots + spots <= usize::MAX,
        ensures
            *final(self) == (MetricsMonitor {
                events: (old(self).events + 1) as usize,
                spots: (old(self).spots + spots) as usize,
                ..*old(self)
            }),
    {
        self.events = self.events + 1;
        self.spots = self.spots + spots;
    }

    /// A sample is due.
    pub fn sample_due(&self, elapsed_ns: u64, interval_ns: u64) -> (due: bool)
        ensures
            due == (if elapsed_ns >= self.last_sample_ns {
                elapsed_ns - self.last_sample_ns >= interval_ns
            } else {
                interval_ns == 0
            }),
    {
        if elapsed_ns >= self.last_sample_ns {
            elapsed_ns - self.last_sample_ns >= interval_ns
        } else {
            interval_ns == 0
        }
    }

    /// Take a sample of the run as it stands.
    pub fn take_sample(
        &mut self,
        elapsed_ns: u64,
        rss: u64,
        active_tracks: usize,
        close_counts: CloseCounts,
    ) -> (sample: SoakMetricsSample)
        ensures
            sample == (SoakMetricsSample {
                elapsed_ns,
                rss_bytes: rss,
                events_emitted: old(self).events,
                spots_emitted: old(self).spots,
                active_tracks,
                close_counts,
            }),
            final(self).events == old(self).events,
            final(self).spots == old(self).spots,
            final(self).peak_active_tracks == larger(old(self).peak_active_tracks, active_tracks),
            final(self).close_counts == close_counts,
            final(self).last_sample_ns == elapsed_ns,
            final(self).growth.baseline == old(self).growth.baseline,
            final(self).growth.worst == worst_after(old(self).growth, elapsed_ns, rss),
    {
        self.last_sample_ns = elapsed_ns;
        self.finish(elapsed_ns, rss, active_tracks, close_counts);
        SoakMetricsSample {
            elapsed_ns,
            rss_bytes: rss,
            events_emitted: self.events,
            spots_emitted: self.spots,
            active_tracks,
            close_counts,
        }
    }

    /// Take the last readings, so that nothing after the last sample goes unseen.
    pub fn finish(
        &mut self,
        elapsed_ns: u64,
        rss: u64,
        active_tracks: usize,
        close_counts: CloseCounts,
    )
        ensures
            final(self).events == old(self).events,
            final(self).spots == old(self).spots,
            final(self).peak_active_tracks == larger(old(self).peak_active_tracks, active_tracks),
            final(self).close_counts == close_counts,
            final(self).last_sample_ns == old(self).last_sample_ns,
            final(self).growth.baseline == old(self).growth.baseline,
            final(self).growth.worst == worst_after(old(self).growth, elapsed_ns, rss),
    {
        if active_tracks > self.peak_active_tracks {
            self.peak_active_tracks = active_tracks;
        }
        self.close_counts = close_counts;
        self.growth.note(elapsed_ns, rss);
    }

    /// The report, or nothing where the pipeline failed without panicking.
    pub fn report(&self, end: RunEnd, duration_actual_ns: u64) -> (report: Option<
        SoakMetricsReport,
    >)
        ensures
            report == (if end == RunEnd::Failed {
                None
            } else {
                Some(
                    SoakMetricsReport {
                        duration_actual_ns,
                        events_emitted: self.events,
                        spots_emitted: self.spots,
                        rss_growth_bytes: self.growth.worst,
                        panicked: end == RunEnd::Panicked,
                        peak_active_tracks: self.peak_active_tracks,
                        final_close_counts: self.close_counts,
                    },
                )
            }),
    {
        let panicked = match end {
            RunEnd::Failed => {
                return None;
            },
            RunEnd::Returned => false,
            RunEnd::Panicked => true,
        };
        Some(
            SoakMetricsReport {
                duration_actual_ns,
                events_emitted: self.events,
                spots_emitted: self.spots,
                rss_growth_bytes: self.growth.worst,
                panicked,
                peak_active_tracks: self.peak_active_tracks,
                final_close_counts: self.close_counts,
            },
        )
    }
}

/// The worst growth never shrinks, and covers every reading that counts.
pub proof fn law_every_counted_reading_is_covered(growth: GrowthWatch, elapsed_ns: u64, rss: u64)
    ensures
        worst_after(growth, elapsed_ns, rss) >= growth.worst,
        spec_counts_memory(elapsed_ns as nat) ==> growth.baseline + worst_after(
            growth,
            elapsed_ns,
            rss,
        ) >= rss,
{
}

/// The peak of the open tracks is the largest number that was seen.
pub proof fn law_the_peak_is_the_largest_seen(a: usize, b: usize)
    ensures
        larger(a, b) >= a,
        larger(a, b) >= b,
        larger(a, b) == a || larger(a, b) == b,
{
}

/// The worst growth is one that was read, and changes only by a reading that counts.
pub proof fn law_growth_is_never_made_up(growth: GrowthWatch, elapsed_ns: u64, rss: u64)
    ensures
        worst_after(growth, elapsed_ns, rss) == growth.worst || elapsed_ns >= 10_000_000_000
            && growth.baseline + worst_after(growth, elapsed_ns, rss) == rss,
{
}

} // verus!
